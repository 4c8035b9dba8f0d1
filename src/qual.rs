//! The quality phase: packed quality states, packed results and the
//! memoised search that finds the best continuation from a state.

use std::collections::HashMap;
use vstd::prelude::*;
use vstd::std_specs::iter::IteratorSpec;

verus! {

/// A quality-phase state: the key of the search cache once packed.
#[derive(Debug, Clone, Copy, PartialEq, Eq, Structural)]
pub struct State {
    /// Remaining time; only taken into account when the cache checks time.
    pub time: u8,
    pub inner_quiet: u8,
    pub cp: u16,
    /// Remaining durability, in units of five points.
    pub durability: u8,
    pub manipulation: u8,
    pub waste_not: u8,
    pub innovation: u8,
    pub great_strides: u8,
    /// Durability that must remain at the end, reserved by the finisher.
    pub min_durability: u8,
    /// 0: unused, 1: armed, 2: spent.
    pub trained_perfection: u8,
    pub heart_and_soul: bool,
}

/// Bit offsets of the packed fields, lowest first.
pub const TP_SHIFT: u64 = 1;
pub const MIN_DUR_SHIFT: u64 = 3;
pub const GS_SHIFT: u64 = 5;
pub const INNO_SHIFT: u64 = 7;
pub const WN_SHIFT: u64 = 10;
pub const MANIP_SHIFT: u64 = 14;
pub const DUR_SHIFT: u64 = 18;
pub const CP_SHIFT: u64 = 23;
pub const IQ_SHIFT: u64 = 33;
pub const TIME_SHIFT: u64 = 37;

/// Mask of the low 40 bits of a packed result.
pub const INDEX_MASK: u64 = 0xFF_FFFF_FFFF;

pub open spec fn bool_bit(b: bool) -> u64 {
    if b { 1 } else { 0 }
}

impl State {
    /// Every field lies within the width it is packed into.
    pub open spec fn fits(self) -> bool {
        &&& self.inner_quiet < 16
        &&& self.cp < 1024
        &&& self.durability < 32
        &&& self.manipulation < 16
        &&& self.waste_not < 16
        &&& self.innovation < 8
        &&& self.great_strides < 4
        &&& self.min_durability < 4
        &&& self.trained_perfection < 4
    }

    /// The state with its time cleared when time is not checked.
    pub open spec fn normalized(self, check_time: bool) -> State {
        if check_time { self } else { State { time: 0, ..self } }
    }

    /// The packed index of the state; time occupies the top bits only when
    /// `check_time` holds.
    pub open spec fn index_spec(self, check_time: bool) -> u64 {
        pack_fields(
            bool_bit(self.heart_and_soul),
            self.trained_perfection as u64,
            self.min_durability as u64,
            self.great_strides as u64,
            self.innovation as u64,
            self.waste_not as u64,
            self.manipulation as u64,
            self.durability as u64,
            self.cp as u64,
            self.inner_quiet as u64,
            if check_time { self.time as u64 } else { 0 },
        )
    }

    pub open spec fn unpack_spec(st: u64) -> State {
        State {
            time: ((st >> TIME_SHIFT) & 0xFF) as u8,
            inner_quiet: ((st >> IQ_SHIFT) & 0xF) as u8,
            cp: ((st >> CP_SHIFT) & 0x3FF) as u16,
            durability: ((st >> DUR_SHIFT) & 0x1F) as u8,
            manipulation: ((st >> MANIP_SHIFT) & 0xF) as u8,
            waste_not: ((st >> WN_SHIFT) & 0xF) as u8,
            innovation: ((st >> INNO_SHIFT) & 0x7) as u8,
            great_strides: ((st >> GS_SHIFT) & 0x3) as u8,
            min_durability: ((st >> MIN_DUR_SHIFT) & 0x3) as u8,
            trained_perfection: ((st >> TP_SHIFT) & 0x3) as u8,
            heart_and_soul: (st & 0x1) != 0,
        }
    }

    /// Reads a state back from its packed index.
    pub fn unpack(st: u64) -> (r: State)
        ensures
            r == State::unpack_spec(st),
            r.fits(),
    {
        let r = State {
            time: ((st >> TIME_SHIFT) & 0xFF) as u8,
            inner_quiet: ((st >> IQ_SHIFT) & 0xF) as u8,
            cp: ((st >> CP_SHIFT) & 0x3FF) as u16,
            durability: ((st >> DUR_SHIFT) & 0x1F) as u8,
            manipulation: ((st >> MANIP_SHIFT) & 0xF) as u8,
            waste_not: ((st >> WN_SHIFT) & 0xF) as u8,
            innovation: ((st >> INNO_SHIFT) & 0x7) as u8,
            great_strides: ((st >> GS_SHIFT) & 0x3) as u8,
            min_durability: ((st >> MIN_DUR_SHIFT) & 0x3) as u8,
            trained_perfection: ((st >> TP_SHIFT) & 0x3) as u8,
            heart_and_soul: (st & 0x1) != 0,
        };
        proof {
            lemma_masks_bound(st);
        }
        r
    }

    /// Packs the state into its index.
    pub fn index(&self, check_time: bool) -> (r: u64)
        requires
            self.fits(),
        ensures
            r == self.index_spec(check_time),
            check_time ==> r < 0x2000_0000_0000u64,
            !check_time ==> r < 0x20_0000_0000u64,
    {
        let t: u64 = if check_time { self.time as u64 } else { 0 };
        let has: u64 = if self.heart_and_soul { 1 } else { 0 };
        proof {
            lemma_pack_fields_bound(
                has,
                self.trained_perfection as u64,
                self.min_durability as u64,
                self.great_strides as u64,
                self.innovation as u64,
                self.waste_not as u64,
                self.manipulation as u64,
                self.durability as u64,
                self.cp as u64,
                self.inner_quiet as u64,
                t,
            );
        }
        has | ((self.trained_perfection as u64) << TP_SHIFT)
            | ((self.min_durability as u64) << MIN_DUR_SHIFT)
            | ((self.great_strides as u64) << GS_SHIFT)
            | ((self.innovation as u64) << INNO_SHIFT)
            | ((self.waste_not as u64) << WN_SHIFT)
            | ((self.manipulation as u64) << MANIP_SHIFT)
            | ((self.durability as u64) << DUR_SHIFT)
            | ((self.cp as u64) << CP_SHIFT)
            | ((self.inner_quiet as u64) << IQ_SHIFT)
            | (t << TIME_SHIFT)
    }
}

pub open spec fn pack_fields(
    has: u64,
    tp: u64,
    md: u64,
    gs: u64,
    inno: u64,
    wn: u64,
    manip: u64,
    dur: u64,
    cp: u64,
    iq: u64,
    time: u64,
) -> u64 {
    has | (tp << 1u64) | (md << 3u64) | (gs << 5u64) | (inno << 7u64) | (wn << 10u64) | (manip
        << 14u64) | (dur << 18u64) | (cp << 23u64) | (iq << 33u64) | (time << 37u64)
}

proof fn lemma_masks_bound(st: u64)
    ensures
        (st >> 37u64) & 0xFF < 256,
        (st >> 33u64) & 0xF < 16,
        (st >> 23u64) & 0x3FF < 1024,
        (st >> 18u64) & 0x1F < 32,
        (st >> 14u64) & 0xF < 16,
        (st >> 10u64) & 0xF < 16,
        (st >> 7u64) & 0x7 < 8,
        (st >> 5u64) & 0x3 < 4,
        (st >> 3u64) & 0x3 < 4,
        (st >> 1u64) & 0x3 < 4,
{
    assert((st >> 37u64) & 0xFF < 256 && (st >> 33u64) & 0xF < 16 && (st >> 23u64) & 0x3FF < 1024
        && (st >> 18u64) & 0x1F < 32 && (st >> 14u64) & 0xF < 16 && (st >> 10u64) & 0xF < 16 && (st
        >> 7u64) & 0x7 < 8 && (st >> 5u64) & 0x3 < 4 && (st >> 3u64) & 0x3 < 4 && (st >> 1u64) & 0x3
        < 4) by (bit_vector);
}

proof fn lemma_pack_fields_bound(
    has: u64,
    tp: u64,
    md: u64,
    gs: u64,
    inno: u64,
    wn: u64,
    manip: u64,
    dur: u64,
    cp: u64,
    iq: u64,
    time: u64,
)
    requires
        has < 2,
        tp < 4,
        md < 4,
        gs < 4,
        inno < 8,
        wn < 16,
        manip < 16,
        dur < 32,
        cp < 1024,
        iq < 16,
        time < 256,
    ensures
        pack_fields(has, tp, md, gs, inno, wn, manip, dur, cp, iq, time) < 0x2000_0000_0000u64,
        time == 0 ==> pack_fields(has, tp, md, gs, inno, wn, manip, dur, cp, iq, time) < 0x20_0000_0000u64,
        (pack_fields(has, tp, md, gs, inno, wn, manip, dur, cp, iq, time) >> 37u64) & 0xFF == time,
        (pack_fields(has, tp, md, gs, inno, wn, manip, dur, cp, iq, time) >> 33u64) & 0xF == iq,
        (pack_fields(has, tp, md, gs, inno, wn, manip, dur, cp, iq, time) >> 23u64) & 0x3FF == cp,
        (pack_fields(has, tp, md, gs, inno, wn, manip, dur, cp, iq, time) >> 18u64) & 0x1F == dur,
        (pack_fields(has, tp, md, gs, inno, wn, manip, dur, cp, iq, time) >> 14u64) & 0xF == manip,
        (pack_fields(has, tp, md, gs, inno, wn, manip, dur, cp, iq, time) >> 10u64) & 0xF == wn,
        (pack_fields(has, tp, md, gs, inno, wn, manip, dur, cp, iq, time) >> 7u64) & 0x7 == inno,
        (pack_fields(has, tp, md, gs, inno, wn, manip, dur, cp, iq, time) >> 5u64) & 0x3 == gs,
        (pack_fields(has, tp, md, gs, inno, wn, manip, dur, cp, iq, time) >> 3u64) & 0x3 == md,
        (pack_fields(has, tp, md, gs, inno, wn, manip, dur, cp, iq, time) >> 1u64) & 0x3 == tp,
        pack_fields(has, tp, md, gs, inno, wn, manip, dur, cp, iq, time) & 0x1 == has,
{
    let v = pack_fields(has, tp, md, gs, inno, wn, manip, dur, cp, iq, time);
    assert(v == has | (tp << 1u64) | (md << 3u64) | (gs << 5u64) | (inno << 7u64) | (wn << 10u64)
        | (manip << 14u64) | (dur << 18u64) | (cp << 23u64) | (iq << 33u64) | (time << 37u64));
    assert(v < 0x2000_0000_0000u64 && (time == 0 ==> v < 0x20_0000_0000u64) && (v >> 37u64) & 0xFF == time && (v
        >> 33u64) & 0xF == iq && (v >> 23u64) & 0x3FF == cp && (v >> 18u64) & 0x1F == dur && (v
        >> 14u64) & 0xF == manip && (v >> 10u64) & 0xF == wn && (v >> 7u64) & 0x7 == inno && (v
        >> 5u64) & 0x3 == gs && (v >> 3u64) & 0x3 == md && (v >> 1u64) & 0x3 == tp && v & 0x1
        == has) by (bit_vector)
        requires
            v == has | (tp << 1u64) | (md << 3u64) | (gs << 5u64) | (inno << 7u64) | (wn << 10u64)
                | (manip << 14u64) | (dur << 18u64) | (cp << 23u64) | (iq << 33u64) | (time
                << 37u64),
            has < 2,
            tp < 4,
            md < 4,
            gs < 4,
            inno < 8,
            wn < 16,
            manip < 16,
            dur < 32,
            cp < 1024,
            iq < 16,
            time < 256,
    ;
}

/// Unpacking the index of a state gives the state back, with its time
/// cleared where time is not part of the index.
pub proof fn lemma_pack_round_trip(s: State, check_time: bool)
    requires
        s.fits(),
    ensures
        State::unpack_spec(s.index_spec(check_time)) == s.normalized(check_time),
{
    lemma_pack_fields_bound(
        bool_bit(s.heart_and_soul),
        s.trained_perfection as u64,
        s.min_durability as u64,
        s.great_strides as u64,
        s.innovation as u64,
        s.waste_not as u64,
        s.manipulation as u64,
        s.durability as u64,
        s.cp as u64,
        s.inner_quiet as u64,
        if check_time { s.time as u64 } else { 0 },
    );
}


/// Efficiency unit: a quality value of 400 is 100% efficiency.
pub const UNIT: u16 = 400;

/// `(quality << 48) | (action << 40) | index` as a packed result.
pub open spec fn pack_result(quality: u16, method: u8, index: u64) -> u64 {
    ((quality as u64) << 48u64) | ((method as u64) << 40u64) | index
}

pub open spec fn result_quality(r: u64) -> u16 {
    (r >> 48u64) as u16
}

pub open spec fn result_method(r: u64) -> u8 {
    (r >> 40u64) as u8
}

pub open spec fn result_index(r: u64) -> u64 {
    r & INDEX_MASK
}

/// Packs a result; the state's index must fit the low 40 bits.
pub fn pack_method(quality: u16, method: u8, state: &State, check_time: bool) -> (r: u64)
    requires
        state.fits(),
        check_time ==> state.time < 8,
    ensures
        r == pack_result(quality, method, state.index_spec(check_time)),
        result_quality(r) == quality,
        result_method(r) == method,
        result_index(r) == state.index_spec(check_time),
{
    let index = state.index(check_time);
    proof {
        if check_time {
            lemma_pack_fields_bound(
                bool_bit(state.heart_and_soul),
                state.trained_perfection as u64,
                state.min_durability as u64,
                state.great_strides as u64,
                state.innovation as u64,
                state.waste_not as u64,
                state.manipulation as u64,
                state.durability as u64,
                state.cp as u64,
                state.inner_quiet as u64,
                state.time as u64,
            );
            assert(index < 0x100_0000_0000u64) by (bit_vector)
                requires
                    (index >> 37u64) & 0xFF < 8,
                    index < 0x2000_0000_0000u64,
            ;
        }
        lemma_pack_result(quality, method, index);
    }
    ((quality as u64) << 48) | ((method as u64) << 40) | index
}

/// Splits a packed result into quality, action id and state index.
pub fn unpack_method(packed_result: u64) -> (r: (u16, u8, u64))
    ensures
        r == (result_quality(packed_result), result_method(packed_result), result_index(
            packed_result,
        )),
        r.2 < 0x100_0000_0000u64,
{
    proof {
        assert(packed_result & 0xFF_FFFF_FFFF < 0x100_0000_0000u64) by (bit_vector);
    }
    ((packed_result >> 48) as u16, (packed_result >> 40) as u8, packed_result & INDEX_MASK)
}

/// The three parts of a packed result read back as they were packed.
pub proof fn lemma_pack_result(quality: u16, method: u8, index: u64)
    requires
        index < 0x100_0000_0000u64,
    ensures
        result_quality(pack_result(quality, method, index)) == quality,
        result_method(pack_result(quality, method, index)) == method,
        result_index(pack_result(quality, method, index)) == index,
        method > 0 ==> pack_result(quality, method, index) >= 0x100_0000_0000u64,
{
    let r = pack_result(quality, method, index);
    assert(r == ((quality as u64) << 48u64) | ((method as u64) << 40u64) | index);
    assert((r >> 48u64) as u16 == quality && (r >> 40u64) as u8 == method && r & 0xFF_FFFF_FFFF
        == index && (method > 0 ==> r >= 0x100_0000_0000u64)) by (bit_vector)
        requires
            r == ((quality as u64) << 48u64) | ((method as u64) << 40u64) | index,
            index < 0x100_0000_0000u64,
    ;
}

/// A larger packed result never carries a smaller quality.
pub proof fn lemma_result_quality_monotone(a: u64, b: u64)
    requires
        a <= b,
    ensures
        result_quality(a) <= result_quality(b),
{
    assert((a >> 48u64) as u16 <= (b >> 48u64) as u16) by (bit_vector)
        requires
            a <= b,
    ;
}

/// Quality of one touch: `quality * (10 + inner_quiet) / 20`, times
/// 2, plus 1 under Innovation, plus 2 under Great Strides.
pub open spec fn igs(quality: int, innovation: int, great_strides: int, inner_quiet: int) -> int {
    quality * (10 + inner_quiet) / 20 * (2 + (if innovation > 0 { 1int } else { 0 }) + (
    if great_strides > 0 { 2int } else { 0 }))
}

pub fn apply_igs(quality: u16, innovation: u8, great_strides: u8, inner_quiet: u8) -> (r: u16)
    requires
        quality * (10 + inner_quiet) <= u16::MAX,
        quality * (10 + inner_quiet) / 20 * 5 <= u16::MAX,
    ensures
        r == igs(quality as int, innovation as int, great_strides as int, inner_quiet as int),
{
    let base: u16 = quality * (10 + inner_quiet as u16) / 20;
    let mult: u16 = 2 + (if innovation > 0 { 1 } else { 0 }) + (if great_strides > 0 { 2 } else { 0 });
    proof {
        assert(base * mult <= base * 5) by (nonlinear_arith)
            requires
                mult <= 5,
        ;
    }
    base * mult
}

pub open spec fn sat_sub(a: int, b: int) -> int {
    if a > b { a - b } else { 0 }
}

pub open spec fn min_int(a: int, b: int) -> int {
    if a < b { a } else { b }
}

/// Durability that must be available to run `steps` damaging steps after
/// `delay` steps that do not damage: the wear, less the Manipulation
/// repairs that land before the last step, less the halving of Waste Not
/// on the steps it still covers.
pub open spec fn dur_cost(perstep: int, steps: int, delay: int, wn: int, manip: int) -> int {
    if steps == 0 {
        0
    } else {
        perstep * steps - min_int(manip, steps + delay - 1) - min_int(sat_sub(wn, delay), steps)
            * perstep / 2
    }
}

pub fn calculate_dur_cost(perstep: u8, steps: u8, delay: u8, wn: u8, manip: u8) -> (r: i8)
    requires
        perstep <= 8,
        steps <= 8,
        delay <= 8,
    ensures
        r == dur_cost(perstep as int, steps as int, delay as int, wn as int, manip as int),
{
    if steps == 0 {
        return 0;
    }
    let wn_left: u8 = if wn > delay { wn - delay } else { 0 };
    let covered: u8 = if wn_left < steps { wn_left } else { steps };
    let repaired: u8 = if manip < steps + delay - 1 { manip } else { steps + delay - 1 };
    proof {
        assert(perstep * steps <= 64) by (nonlinear_arith)
            requires
                perstep <= 8,
                steps <= 8,
        ;
        assert(covered * perstep <= 64) by (nonlinear_arith)
            requires
                perstep <= 8,
                covered <= 8,
        ;
    }
    (perstep * steps) as i8 - repaired as i8 - (covered * perstep / 2) as i8
}


/// What an action does beyond spending CP, time and durability.
#[derive(Debug, Clone, Copy, PartialEq, Eq, Structural)]
pub enum Effect {
    /// A plain touch: gains inner quiet.
    Touch,
    /// A touch that is refused under Waste Not.
    Prudent,
    /// A touch that needs full inner quiet and keeps it.
    Finesse,
    /// A touch whose efficiency grows with inner quiet, which it then spends.
    Byregot,
    /// A touch that spends Heart and Soul.
    Precise,
    /// Sets Waste Not to the given number of steps.
    WasteNot(u8),
    Manipulation,
    MastersMend,
    Innovation,
    GreatStrides,
    ImmaculateMend,
    TrainedPerfection,
}

impl Effect {
    pub open spec fn is_touch(self) -> bool {
        match self {
            Effect::Touch | Effect::Prudent | Effect::Finesse | Effect::Byregot
            | Effect::Precise => true,
            _ => false,
        }
    }
}

/// One entry of the action catalogue.
#[derive(Debug, Clone, Copy, PartialEq, Eq, Structural)]
pub struct QualAction {
    pub id: u8,
    /// Durability (in units of five) that one damaging step wears.
    pub raw_dur_cost: u8,
    /// Atomic steps, the non-damaging lead-in steps included.
    pub step_count: u8,
    /// Lead-in steps that neither damage nor add quality.
    pub delay: u8,
    pub cp_cost: u16,
    pub iq_stacks: u8,
    pub time_cost: u8,
    /// Efficiency of the first quality step, in units of `UNIT / 100`.
    pub qual_value: u16,
    /// Efficiency added at each further quality step of a combo.
    pub scaling: u16,
    pub effect: Effect,
}

pub open spec fn qa(
    id: u8,
    raw_dur_cost: u8,
    step_count: u8,
    delay: u8,
    cp_cost: u16,
    iq_stacks: u8,
    time_cost: u8,
    qual_value: u16,
    scaling: u16,
    effect: Effect,
) -> QualAction {
    QualAction {
        id,
        raw_dur_cost,
        step_count,
        delay,
        cp_cost,
        iq_stacks,
        time_cost,
        qual_value,
        scaling,
        effect,
    }
}

impl QualAction {
    pub fn new(
        id: u8,
        raw_dur_cost: u8,
        step_count: u8,
        delay: u8,
        cp_cost: u16,
        iq_stacks: u8,
        time_cost: u8,
        qual_value: u16,
        scaling: u16,
        effect: Effect,
    ) -> (r: QualAction)
        ensures
            r == qa(
                id,
                raw_dur_cost,
                step_count,
                delay,
                cp_cost,
                iq_stacks,
                time_cost,
                qual_value,
                scaling,
                effect,
            ),
    {
        QualAction {
            id,
            raw_dur_cost,
            step_count,
            delay,
            cp_cost,
            iq_stacks,
            time_cost,
            qual_value,
            scaling,
            effect,
        }
    }

    /// Steps that damage the item and add quality.
    pub open spec fn damaging_steps(self) -> int {
        self.step_count - self.delay
    }

    /// The bounds every catalogue entry keeps.
    pub open spec fn sane(self) -> bool {
        &&& 1 <= self.step_count <= 3
        &&& self.delay < self.step_count
        &&& self.raw_dur_cost <= 4
        &&& self.iq_stacks <= 3
        &&& self.time_cost <= 9
        &&& self.qual_value + 2 * self.scaling <= 800
        &&& (self.cp_cost > 0 || self.effect == Effect::TrainedPerfection)
        &&& (self.effect.is_touch() || self.raw_dur_cost == 0)
        &&& (forall|n: u8| self.effect == Effect::WasteNot(n) ==> n <= 8)
    }
}

/// Number of action ids; ids run from 1 to `ACTION_COUNT`.
pub const ACTION_COUNT: u8 = 21;

/// The action catalogue by id. Id 16 (Observe) is reserved and has no entry.
pub open spec fn catalogue_spec(id: u8) -> Option<QualAction> {
    match id {
        1 => Some(qa(1, 2, 1, 0, 18, 1, 3, 400, 0, Effect::Touch)),
        2 => Some(qa(2, 2, 1, 0, 32, 1, 3, 500, 0, Effect::Touch)),
        3 => Some(qa(3, 2, 1, 0, 46, 1, 3, 600, 0, Effect::Touch)),
        4 => Some(qa(4, 2, 2, 0, 36, 2, 6, 400, 100, Effect::Touch)),
        5 => Some(qa(5, 2, 3, 0, 54, 3, 9, 400, 100, Effect::Touch)),
        6 => Some(qa(6, 2, 2, 1, 25, 1, 6, 600, 0, Effect::Touch)),
        7 => Some(qa(7, 1, 1, 0, 25, 1, 3, 400, 0, Effect::Prudent)),
        8 => Some(qa(8, 4, 1, 0, 40, 2, 3, 800, 0, Effect::Touch)),
        9 => Some(qa(9, 0, 1, 0, 32, 0, 3, 400, 0, Effect::Finesse)),
        10 => Some(qa(10, 0, 1, 0, 56, 0, 2, 0, 0, Effect::WasteNot(4))),
        11 => Some(qa(11, 0, 1, 0, 98, 0, 2, 0, 0, Effect::WasteNot(8))),
        12 => Some(qa(12, 0, 1, 0, 96, 0, 2, 0, 0, Effect::Manipulation)),
        13 => Some(qa(13, 0, 1, 0, 88, 0, 2, 0, 0, Effect::MastersMend)),
        14 => Some(qa(14, 0, 1, 0, 18, 0, 2, 0, 0, Effect::Innovation)),
        15 => Some(qa(15, 0, 1, 0, 32, 0, 2, 0, 0, Effect::GreatStrides)),
        17 => Some(qa(17, 2, 1, 0, 24, 0, 3, 0, 0, Effect::Byregot)),
        18 => Some(qa(18, 2, 1, 0, 18, 2, 3, 800, 0, Effect::Precise)),
        19 => Some(qa(19, 2, 2, 0, 42, 3, 6, 400, 0, Effect::Touch)),
        20 => Some(qa(20, 0, 1, 0, 112, 0, 2, 0, 0, Effect::ImmaculateMend)),
        21 => Some(qa(21, 0, 1, 0, 0, 0, 2, 0, 0, Effect::TrainedPerfection)),
        _ => None,
    }
}

pub fn catalogue(id: u8) -> (r: Option<QualAction>)
    ensures
        r == catalogue_spec(id),
{
    match id {
        1 => Some(QualAction::new(1, 2, 1, 0, 18, 1, 3, 400, 0, Effect::Touch)),
        2 => Some(QualAction::new(2, 2, 1, 0, 32, 1, 3, 500, 0, Effect::Touch)),
        3 => Some(QualAction::new(3, 2, 1, 0, 46, 1, 3, 600, 0, Effect::Touch)),
        4 => Some(QualAction::new(4, 2, 2, 0, 36, 2, 6, 400, 100, Effect::Touch)),
        5 => Some(QualAction::new(5, 2, 3, 0, 54, 3, 9, 400, 100, Effect::Touch)),
        6 => Some(QualAction::new(6, 2, 2, 1, 25, 1, 6, 600, 0, Effect::Touch)),
        7 => Some(QualAction::new(7, 1, 1, 0, 25, 1, 3, 400, 0, Effect::Prudent)),
        8 => Some(QualAction::new(8, 4, 1, 0, 40, 2, 3, 800, 0, Effect::Touch)),
        9 => Some(QualAction::new(9, 0, 1, 0, 32, 0, 3, 400, 0, Effect::Finesse)),
        10 => Some(QualAction::new(10, 0, 1, 0, 56, 0, 2, 0, 0, Effect::WasteNot(4))),
        11 => Some(QualAction::new(11, 0, 1, 0, 98, 0, 2, 0, 0, Effect::WasteNot(8))),
        12 => Some(QualAction::new(12, 0, 1, 0, 96, 0, 2, 0, 0, Effect::Manipulation)),
        13 => Some(QualAction::new(13, 0, 1, 0, 88, 0, 2, 0, 0, Effect::MastersMend)),
        14 => Some(QualAction::new(14, 0, 1, 0, 18, 0, 2, 0, 0, Effect::Innovation)),
        15 => Some(QualAction::new(15, 0, 1, 0, 32, 0, 2, 0, 0, Effect::GreatStrides)),
        17 => Some(QualAction::new(17, 2, 1, 0, 24, 0, 3, 0, 0, Effect::Byregot)),
        18 => Some(QualAction::new(18, 2, 1, 0, 18, 2, 3, 800, 0, Effect::Precise)),
        19 => Some(QualAction::new(19, 2, 2, 0, 42, 3, 6, 400, 0, Effect::Touch)),
        20 => Some(QualAction::new(20, 0, 1, 0, 112, 0, 2, 0, 0, Effect::ImmaculateMend)),
        21 => Some(QualAction::new(21, 0, 1, 0, 0, 0, 2, 0, 0, Effect::TrainedPerfection)),
        _ => None,
    }
}

/// Every catalogue entry carries its own id and keeps the catalogue bounds.
pub proof fn lemma_catalogue_sane(id: u8)
    ensures
        catalogue_spec(id) is Some ==> catalogue_spec(id)->0.sane() && catalogue_spec(id)->0.id
            == id,
        catalogue_spec(id) is Some <==> 1 <= id <= ACTION_COUNT && id != 16,
{
}

/// Damaging steps and lead-in once an armed Trained Perfection has made the
/// first damaging step free.
pub open spec fn wear_steps(s: State, a: QualAction) -> (int, int) {
    if s.trained_perfection == 1 {
        (a.damaging_steps() - 1, a.delay + 1)
    } else {
        (a.damaging_steps(), a.delay as int)
    }
}

/// Durability that must be available before the action runs.
pub open spec fn durability_needed(s: State, a: QualAction) -> int {
    dur_cost(
        a.raw_dur_cost as int,
        wear_steps(s, a).0,
        wear_steps(s, a).1,
        s.waste_not as int,
        s.manipulation as int,
    )
}

/// Durability the action wears, before Manipulation repairs.
pub open spec fn wear(s: State, a: QualAction) -> int {
    let (steps, delay) = wear_steps(s, a);
    if steps <= 0 {
        0
    } else {
        a.raw_dur_cost * steps - min_int(sat_sub(s.waste_not as int, delay), steps)
            * a.raw_dur_cost / 2
    }
}

/// Whether the action may be taken from the state.
pub open spec fn applicable(s: State, a: QualAction, check_time: bool) -> bool {
    &&& s.cp >= a.cp_cost
    &&& (!check_time || s.time >= a.time_cost)
    &&& s.durability >= durability_needed(s, a)
    &&& match a.effect {
        Effect::Prudent => s.waste_not == 0,
        Effect::Finesse => s.inner_quiet == 10,
        Effect::Precise => s.heart_and_soul,
        Effect::TrainedPerfection => s.trained_perfection == 0,
        _ => true,
    }
}

/// The state after taking the action.
pub open spec fn successor(s: State, a: QualAction, max_dur: u8, check_time: bool) -> State {
    let regen = min_int(s.manipulation as int, a.step_count as int);
    let steps = a.step_count as int;
    State {
        time: if check_time { (s.time - a.time_cost) as u8 } else { 0 },
        inner_quiet: if a.effect == Effect::Byregot { 0 } else {
            min_int(s.inner_quiet + a.iq_stacks, 10) as u8
        },
        cp: (s.cp - a.cp_cost) as u16,
        durability: match a.effect {
            Effect::Manipulation => s.durability,
            Effect::ImmaculateMend => max_dur,
            Effect::MastersMend => min_int(s.durability + 6 + regen, max_dur as int) as u8,
            _ => min_int(s.durability + regen - wear(s, a), max_dur as int) as u8,
        },
        manipulation: if a.effect == Effect::Manipulation { 8 } else {
            sat_sub(s.manipulation as int, steps) as u8
        },
        waste_not: match a.effect {
            Effect::WasteNot(n) => n,
            _ => sat_sub(s.waste_not as int, steps) as u8,
        },
        innovation: if a.effect == Effect::Innovation { 4 } else {
            sat_sub(s.innovation as int, steps) as u8
        },
        great_strides: if a.effect == Effect::GreatStrides { 3 } else if a.effect.is_touch() { 0 } else {
            sat_sub(s.great_strides as int, steps) as u8
        },
        min_durability: s.min_durability,
        trained_perfection: if a.effect == Effect::TrainedPerfection { 1 } else if s.trained_perfection
            > 0 { 2 } else { 0 },
        heart_and_soul: if a.effect == Effect::Precise { false } else { s.heart_and_soul },
    }
}

/// Quality of the `j`-th damaging step of a touch: Innovation has ticked
/// once per earlier step, Great Strides covers only the first damaging step,
/// and each earlier step has added one stack of inner quiet.
pub open spec fn step_quality(s: State, a: QualAction, j: int) -> int {
    let efficiency = if a.effect == Effect::Byregot {
        UNIT * (10 + 2 * s.inner_quiet) / 10
    } else {
        a.qual_value + j * a.scaling
    };
    igs(
        efficiency,
        sat_sub(s.innovation as int, a.delay + j),
        if j == 0 { sat_sub(s.great_strides as int, a.delay as int) } else { 0 },
        min_int(s.inner_quiet + j, 10),
    )
}

/// Quality the action adds, in internal units.
pub open spec fn gain(s: State, a: QualAction) -> int {
    if !a.effect.is_touch() {
        0
    } else {
        step_quality(s, a, 0) + (if a.damaging_steps() > 1 { step_quality(s, a, 1) } else { 0 }) + (
        if a.damaging_steps() > 2 { step_quality(s, a, 2) } else { 0 })
    }
}


/// Taking an action keeps a state within its packed widths and lowers the
/// measure `(cp, trained perfection unused)` lexicographically.
pub proof fn lemma_successor(s: State, a: QualAction, max_dur: u8, check_time: bool)
    requires
        s.fits(),
        a.sane(),
        max_dur < 32,
        applicable(s, a, check_time),
    ensures
        successor(s, a, max_dur, check_time).fits(),
        successor(s, a, max_dur, check_time).cp < s.cp || (successor(s, a, max_dur, check_time).cp
            == s.cp && s.trained_perfection == 0 && successor(
            s,
            a,
            max_dur,
            check_time,
        ).trained_perfection != 0),
        s.durability + min_int(s.manipulation as int, a.step_count as int) >= wear(s, a),
        0 <= wear(s, a) <= 12,
{
    let (steps, delay) = wear_steps(s, a);
    if steps > 0 {
        let covered = min_int(sat_sub(s.waste_not as int, delay), steps);
        assert(covered * a.raw_dur_cost <= steps * a.raw_dur_cost) by (nonlinear_arith)
            requires
                covered <= steps,
                0 <= a.raw_dur_cost,
        ;
        assert(a.raw_dur_cost * steps <= 12) by (nonlinear_arith)
            requires
                a.raw_dur_cost <= 4,
                steps <= 3,
        ;
        assert(covered * a.raw_dur_cost / 2 >= 0) by (nonlinear_arith)
            requires
                covered >= 0,
                a.raw_dur_cost >= 0,
        ;
    }
}

/// The state after the action, or `None` where the action may not be taken.
pub fn next_state(s: &State, a: &QualAction, max_dur: u8, check_time: bool) -> (r: Option<State>)
    requires
        s.fits(),
        a.sane(),
        max_dur < 32,
    ensures
        r == (if applicable(*s, *a, check_time) {
            Some(successor(*s, *a, max_dur, check_time))
        } else {
            None
        }),
{
    let (steps, delay) = if s.trained_perfection == 1 {
        (a.step_count - a.delay - 1, a.delay + 1)
    } else {
        (a.step_count - a.delay, a.delay)
    };
    let needed = calculate_dur_cost(a.raw_dur_cost, steps, delay, s.waste_not, s.manipulation);
    if s.cp < a.cp_cost || (check_time && s.time < a.time_cost) || (s.durability as i16) < (
    needed as i16) {
        return None;
    }
    let allowed = match a.effect {
        Effect::Prudent => s.waste_not == 0,
        Effect::Finesse => s.inner_quiet == 10,
        Effect::Precise => s.heart_and_soul,
        Effect::TrainedPerfection => s.trained_perfection == 0,
        _ => true,
    };
    if !allowed {
        return None;
    }
    proof {
        lemma_successor(*s, *a, max_dur, check_time);
    }
    let worn: u8 = if steps == 0 {
        0
    } else {
        let wn_left: u8 = if s.waste_not > delay { s.waste_not - delay } else { 0 };
        let covered: u8 = if wn_left < steps { wn_left } else { steps };
        proof {
            assert(covered * a.raw_dur_cost <= steps * a.raw_dur_cost) by (nonlinear_arith)
                requires
                    covered <= steps,
            ;
            assert(a.raw_dur_cost * steps <= 12) by (nonlinear_arith)
                requires
                    a.raw_dur_cost <= 4,
                    steps <= 3,
            ;
        }
        a.raw_dur_cost * steps - covered * a.raw_dur_cost / 2
    };
    let regen: u8 = if s.manipulation < a.step_count { s.manipulation } else { a.step_count };
    let step_count = a.step_count;
    let durability: u8 = match a.effect {
        Effect::Manipulation => s.durability,
        Effect::ImmaculateMend => max_dur,
        Effect::MastersMend => {
            let d = s.durability + 6 + regen;
            if d < max_dur { d } else { max_dur }
        },
        _ => {
            let d = s.durability + regen - worn;
            if d < max_dur { d } else { max_dur }
        },
    };
    let is_touch = match a.effect {
        Effect::Touch | Effect::Prudent | Effect::Finesse | Effect::Byregot | Effect::Precise => true,
        _ => false,
    };
    let inner_quiet: u8 = if a.effect == Effect::Byregot {
        0
    } else if s.inner_quiet + a.iq_stacks < 10 {
        s.inner_quiet + a.iq_stacks
    } else {
        10
    };
    Some(
        State {
            time: if check_time { s.time - a.time_cost } else { 0 },
            inner_quiet,
            cp: s.cp - a.cp_cost,
            durability,
            manipulation: if a.effect == Effect::Manipulation { 8 } else if s.manipulation > step_count {
                s.manipulation - step_count
            } else {
                0
            },
            waste_not: match a.effect {
                Effect::WasteNot(n) => n,
                _ => if s.waste_not > step_count { s.waste_not - step_count } else { 0 },
            },
            innovation: if a.effect == Effect::Innovation { 4 } else if s.innovation > step_count {
                s.innovation - step_count
            } else {
                0
            },
            great_strides: if a.effect == Effect::GreatStrides { 3 } else if is_touch { 0 } else if s.great_strides
                > step_count { s.great_strides - step_count } else { 0 },
            min_durability: s.min_durability,
            trained_perfection: if a.effect == Effect::TrainedPerfection { 1 } else if s.trained_perfection
                > 0 { 2 } else { 0 },
            heart_and_soul: if a.effect == Effect::Precise { false } else { s.heart_and_soul },
        },
    )
}

fn quality_of_step(s: &State, a: &QualAction, j: u8) -> (r: u16)
    requires
        s.fits(),
        a.sane(),
        j < a.damaging_steps(),
    ensures
        r == step_quality(*s, *a, j as int),
        r <= 10000,
{
    let efficiency: u16 = if a.effect == Effect::Byregot {
        UNIT * (10 + 2 * s.inner_quiet as u16) / 10
    } else {
        proof {
            assert(j * a.scaling <= 2 * a.scaling) by (nonlinear_arith)
                requires
                    j <= 2,
            ;
        }
        a.qual_value + j as u16 * a.scaling
    };
    let shift = a.delay + j;
    let innovation: u8 = if s.innovation > shift { s.innovation - shift } else { 0 };
    let great_strides: u8 = if j == 0 && s.great_strides > a.delay {
        s.great_strides - a.delay
    } else {
        0
    };
    let inner_quiet: u8 = if s.inner_quiet + j < 10 { s.inner_quiet + j } else { 10 };
    proof {
        assert(efficiency * (10 + inner_quiet) <= 40000) by (nonlinear_arith)
            requires
                efficiency <= 1600,
                inner_quiet <= 15,
        ;
    }
    let r = apply_igs(efficiency, innovation, great_strides, inner_quiet);
    proof {
        assert(r <= 10000) by (nonlinear_arith)
            requires
                r == efficiency * (10 + inner_quiet) / 20 * (2 + (if innovation > 0 { 1int } else {
                    0
                }) + (if great_strides > 0 { 2int } else { 0 })),
                efficiency * (10 + inner_quiet) <= 40000,
        ;
    }
    r
}

/// Quality the action adds from the state, in internal units.
pub fn quality_gain(s: &State, a: &QualAction) -> (r: u16)
    requires
        s.fits(),
        a.sane(),
    ensures
        r == gain(*s, *a),
        r <= 30000,
{
    match a.effect {
        Effect::Touch | Effect::Prudent | Effect::Finesse | Effect::Byregot | Effect::Precise => {},
        _ => {
            return 0;
        },
    }
    let steps = a.step_count - a.delay;
    let mut total = quality_of_step(s, a, 0);
    if steps > 1 {
        total = total + quality_of_step(s, a, 1);
    }
    if steps > 2 {
        total = total + quality_of_step(s, a, 2);
    }
    total
}


/// 1 while Trained Perfection is still unused, else 0: with `cp` it forms
/// the measure that every action lowers.
pub open spec fn tp_unused(s: State) -> int {
    if s.trained_perfection == 0 { 1 } else { 0 }
}

/// No further action is considered: CP (or, when time is checked, time)
/// has run out.
pub open spec fn is_terminal(s: State, check_time: bool) -> bool {
    s.cp < 7 || (check_time && s.time < 2)
}

/// Stopping here: the sentinel result 1 when the finisher's durability
/// reserve is met, else no result.
pub open spec fn stop_result(s: State) -> Option<u64> {
    if s.durability >= s.min_durability { Some(1) } else { None }
}

/// The larger of two results; a missing result loses to any present one.
pub open spec fn better(x: Option<u64>, y: Option<u64>) -> Option<u64> {
    match (x, y) {
        (Some(a), Some(b)) => Some(if b > a { b } else { a }),
        (Some(a), None) => Some(a),
        (None, _) => y,
    }
}

/// Quality added up in 16 bits, held at the largest value instead of
/// wrapping.
pub open spec fn sat_quality(q: int) -> u16 {
    if q > u16::MAX { u16::MAX } else { q as u16 }
}

/// The best packed result reachable from `s`: the largest of stopping here
/// and of every action that leads to a state with a result, or `None` where
/// no sequence of actions ends with the durability reserve met.
pub open spec fn value(s: State, max_dur: u8, check_time: bool) -> Option<u64>
    decreases s.cp, tp_unused(s), 23int,
{
    if is_terminal(s, check_time) {
        stop_result(s)
    } else {
        best_from(s, max_dur, check_time, ACTION_COUNT)
    }
}

/// The best of stopping and of the actions with ids `1..=n`.
pub open spec fn best_from(s: State, max_dur: u8, check_time: bool, n: u8) -> Option<u64>
    decreases s.cp, tp_unused(s), n as int,
{
    if n == 0 {
        stop_result(s)
    } else {
        better(
            best_from(s, max_dur, check_time, (n - 1) as u8),
            candidate(s, n, max_dur, check_time),
        )
    }
}

/// The result of taking action `id` first, where it may be taken and its
/// successor has a result: the successor's quality plus the action's gain,
/// the id, and the successor's untimed index.
pub open spec fn candidate(s: State, id: u8, max_dur: u8, check_time: bool) -> Option<u64>
    decreases s.cp, tp_unused(s), 0int,
    via candidate_decreases
{
    match catalogue_spec(id) {
        Some(a) => if applicable(s, a, check_time) {
            let ns = successor(s, a, max_dur, check_time);
            match value(ns, max_dur, check_time) {
                Some(r) => Some(
                    pack_result(
                        sat_quality(result_quality(r) + gain(s, a)),
                        id,
                        ns.index_spec(false),
                    ),
                ),
                None => None,
            }
        } else {
            None
        },
        None => None,
    }
}

#[via_fn]
proof fn candidate_decreases(s: State, id: u8, max_dur: u8, check_time: bool) {
    lemma_catalogue_sane(id);
}

/// Every result that `value` gives is non-zero, so 0 can stand for "none".
pub proof fn lemma_best_from_nonzero(s: State, max_dur: u8, check_time: bool, n: u8)
    ensures
        best_from(s, max_dur, check_time, n) != Some(0u64),
    decreases n,
{
    if n > 0 {
        lemma_best_from_nonzero(s, max_dur, check_time, (n - 1) as u8);
        let c = candidate(s, n, max_dur, check_time);
        if c is Some {
            let a = catalogue_spec(n)->0;
            let ns = successor(s, a, max_dur, check_time);
            let r = value(ns, max_dur, check_time)->0;
            let q = sat_quality(result_quality(r) + gain(s, a));
            let i = ns.index_spec(false);
            assert(pack_result(q, n, i) != 0) by (bit_vector)
                requires
                    n > 0,
            ;
        }
    }
}

pub proof fn lemma_value_nonzero(s: State, max_dur: u8, check_time: bool)
    ensures
        value(s, max_dur, check_time) != Some(0u64),
{
    lemma_best_from_nonzero(s, max_dur, check_time, ACTION_COUNT);
}

proof fn lemma_best_from_untimed(s: State, max_dur: u8, n: u8)
    ensures
        best_from(s, max_dur, false, n) == best_from(s.normalized(false), max_dur, false, n),
    decreases n,
{
    let t = s.normalized(false);
    if n > 0 {
        lemma_best_from_untimed(s, max_dur, (n - 1) as u8);
        match catalogue_spec(n) {
            Some(a) => {
                assert(applicable(s, a, false) == applicable(t, a, false));
                assert(successor(s, a, max_dur, false) == successor(t, a, max_dur, false));
                assert(gain(s, a) == gain(t, a));
            },
            None => {},
        }
        assert(candidate(s, n, max_dur, false) == candidate(t, n, max_dur, false));
    }
}

/// Without time checks, the result does not depend on the state's time.
pub proof fn lemma_value_normalized(s: State, max_dur: u8, check_time: bool)
    ensures
        value(s, max_dur, check_time) == value(s.normalized(check_time), max_dur, check_time),
{
    if !check_time {
        lemma_best_from_untimed(s, max_dur, ACTION_COUNT);
    }
}

/// How a result of `value(s)` decodes: either action 0 with quality 0
/// (stop here), or an action that may be taken from `s`, the untimed index
/// of the state it leads to, and the successor's quality plus the action's
/// gain (held at `u16::MAX`).
pub open spec fn decodes(s: State, r: u64, max_dur: u8, check_time: bool) -> bool {
    let m = result_method(r);
    if m == 0 {
        result_quality(r) == 0
    } else {
        &&& catalogue_spec(m) is Some
        &&& !is_terminal(s, check_time)
        &&& applicable(s, catalogue_spec(m)->0, check_time)
        &&& result_index(r) == successor(s, catalogue_spec(m)->0, max_dur, check_time).index_spec(false)
        &&& value(successor(s, catalogue_spec(m)->0, max_dur, check_time), max_dur, check_time) is Some
        &&& result_quality(r) == sat_quality(
            result_quality(
                value(successor(s, catalogue_spec(m)->0, max_dur, check_time), max_dur, check_time)->0,
            ) + gain(s, catalogue_spec(m)->0),
        )
    }
}

/// The sentinel 1 and the empty result 0 both read as action 0 with
/// quality 0.
pub proof fn lemma_sentinel_decodes()
    ensures
        result_method(1) == 0,
        result_quality(1) == 0,
        result_method(0) == 0,
        result_quality(0) == 0,
{
    assert((1u64 >> 40u64) as u8 == 0 && (1u64 >> 48u64) as u16 == 0 && (0u64 >> 40u64) as u8
        == 0 && (0u64 >> 48u64) as u16 == 0) by (bit_vector);
}

proof fn lemma_best_from_decodes(s: State, max_dur: u8, check_time: bool, n: u8)
    requires
        s.fits(),
        max_dur < 32,
        !is_terminal(s, check_time),
        n <= ACTION_COUNT,
    ensures
        best_from(s, max_dur, check_time, n) is Some ==> decodes(
            s,
            best_from(s, max_dur, check_time, n)->0,
            max_dur,
            check_time,
        ),
    decreases n,
{
    lemma_sentinel_decodes();
    if n > 0 {
        lemma_best_from_decodes(s, max_dur, check_time, (n - 1) as u8);
        let c = candidate(s, n, max_dur, check_time);
        if c is Some {
            lemma_catalogue_sane(n);
            let a = catalogue_spec(n)->0;
            lemma_successor(s, a, max_dur, check_time);
            let ns = successor(s, a, max_dur, check_time);
            let r = value(ns, max_dur, check_time)->0;
            lemma_pack_fields_bound(
                bool_bit(ns.heart_and_soul),
                ns.trained_perfection as u64,
                ns.min_durability as u64,
                ns.great_strides as u64,
                ns.innovation as u64,
                ns.waste_not as u64,
                ns.manipulation as u64,
                ns.durability as u64,
                ns.cp as u64,
                ns.inner_quiet as u64,
                0,
            );
            lemma_pack_result(
                sat_quality(result_quality(r) + gain(s, a)),
                n,
                ns.index_spec(false),
            );
        }
    }
}

/// Every result of the search decodes into "stop here" or into a first
/// action, the successor it leads to, and a quality that is the successor's
/// quality plus the action's gain.
pub proof fn lemma_result_decodes(s: State, max_dur: u8, check_time: bool)
    requires
        s.fits(),
        max_dur < 32,
    ensures
        value(s, max_dur, check_time) is Some ==> decodes(
            s,
            value(s, max_dur, check_time)->0,
            max_dur,
            check_time,
        ),
{
    lemma_sentinel_decodes();
    if !is_terminal(s, check_time) {
        lemma_best_from_decodes(s, max_dur, check_time, ACTION_COUNT);
    }
}

/// The states that the best rotation from `s` passes through, `s` first and
/// the state where it stops last.
pub open spec fn chain(s: State, max_dur: u8, check_time: bool) -> Seq<State>
    decreases s.cp, tp_unused(s),
    via chain_decreases
{
    match value(s, max_dur, check_time) {
        Some(r) => {
            let m = result_method(r);
            if m != 0 && catalogue_spec(m) is Some && applicable(s, catalogue_spec(m)->0, check_time) {
                seq![s] + chain(successor(s, catalogue_spec(m)->0, max_dur, check_time), max_dur, check_time)
            } else {
                seq![s]
            }
        },
        None => seq![s],
    }
}

#[via_fn]
proof fn chain_decreases(s: State, max_dur: u8, check_time: bool) {
    if let Some(r) = value(s, max_dur, check_time) {
        lemma_catalogue_sane(result_method(r));
    }
}

/// Reads a stored result back: 0 is "no result".
pub open spec fn decode(x: u64) -> Option<u64> {
    if x == 0 { None } else { Some(x) }
}

/// The result of state `ns` as a loaded image gives it: computed where `ns`
/// is terminal, else read from the image.
pub open spec fn looked_up(ns: State, m: Map<u64, u64>, check_time: bool) -> Option<u64> {
    if is_terminal(ns, check_time) {
        stop_result(ns)
    } else {
        decode(m[ns.index_spec(check_time)])
    }
}

/// Every action that may be taken from `s` leads to a terminal state or to
/// a state the image holds.
pub open spec fn children_present(s: State, m: Map<u64, u64>, max_dur: u8, check_time: bool) -> bool {
    forall|id: u8|
        #![trigger catalogue_spec(id)]
        catalogue_spec(id) is Some && applicable(s, catalogue_spec(id)->0, check_time) ==> ({
            let ns = successor(s, catalogue_spec(id)->0, max_dur, check_time);
            is_terminal(ns, check_time) || m.contains_key(ns.index_spec(check_time))
        })
}

/// `candidate`, with the successor's result taken from the image.
pub open spec fn local_candidate(s: State, id: u8, m: Map<u64, u64>, max_dur: u8, check_time: bool) -> Option<u64> {
    match catalogue_spec(id) {
        Some(a) => if applicable(s, a, check_time) {
            let ns = successor(s, a, max_dur, check_time);
            match looked_up(ns, m, check_time) {
                Some(r) => Some(
                    pack_result(
                        sat_quality(result_quality(r) + gain(s, a)),
                        id,
                        ns.index_spec(false),
                    ),
                ),
                None => None,
            }
        } else {
            None
        },
        None => None,
    }
}

/// `best_from`, with the successors' results taken from the image.
pub open spec fn local_best(s: State, m: Map<u64, u64>, max_dur: u8, check_time: bool, n: u8) -> Option<u64>
    decreases n,
{
    if n == 0 {
        stop_result(s)
    } else {
        better(
            local_best(s, m, max_dur, check_time, (n - 1) as u8),
            local_candidate(s, n, m, max_dur, check_time),
        )
    }
}

/// Every entry of the image sits under its state's own key, is not
/// terminal, has its children in the image, and agrees with one step of the
/// search over them.
pub open spec fn image_consistent(m: Map<u64, u64>, max_dur: u8, check_time: bool) -> bool {
    forall|k: u64|
        #[trigger] m.contains_key(k) ==> {
            let s = State::unpack_spec(k);
            &&& k == s.index_spec(check_time)
            &&& !is_terminal(s, check_time)
            &&& children_present(s, m, max_dur, check_time)
            &&& m[k] == stored(local_best(s, m, max_dur, check_time, ACTION_COUNT))
        }
}

/// In a consistent image, one step of the search over the image gives the
/// search's own result.
proof fn lemma_local_best(s: State, m: Map<u64, u64>, max_dur: u8, check_time: bool, n: u8)
    requires
        image_consistent(m, max_dur, check_time),
        s.fits(),
        max_dur < 32,
        s == s.normalized(check_time),
        children_present(s, m, max_dur, check_time),
        n <= ACTION_COUNT,
    ensures
        local_best(s, m, max_dur, check_time, n) == best_from(s, max_dur, check_time, n),
    decreases s.cp, tp_unused(s), n,
{
    if n > 0 {
        lemma_local_best(s, m, max_dur, check_time, (n - 1) as u8);
        lemma_catalogue_sane(n);
        if let Some(a) = catalogue_spec(n) {
            if applicable(s, a, check_time) {
                lemma_successor(s, a, max_dur, check_time);
                let ns = successor(s, a, max_dur, check_time);
                if !is_terminal(ns, check_time) {
                    let key = ns.index_spec(check_time);
                    assert(m.contains_key(key));
                    lemma_pack_round_trip(ns, check_time);
                    let t = State::unpack_spec(key);
                    assert(t == ns.normalized(check_time));
                    assert(t == ns);
                    lemma_local_best(t, m, max_dur, check_time, ACTION_COUNT);
                    lemma_value_nonzero(ns, max_dur, check_time);
                    assert(looked_up(ns, m, check_time) == value(ns, max_dur, check_time));
                }
            }
        }
        assert(local_candidate(s, n, m, max_dur, check_time) == candidate(s, n, max_dur, check_time));
    }
}

/// Every entry of a consistent image is the stored result of its state.
pub proof fn lemma_image_sound(m: Map<u64, u64>, max_dur: u8, check_time: bool, k: u64)
    requires
        image_consistent(m, max_dur, check_time),
        max_dur < 32,
        m.contains_key(k),
    ensures
        m[k] == stored(value(State::unpack_spec(k), max_dur, check_time)),
{
    let s = State::unpack_spec(k);
    lemma_masks_bound(k);
    lemma_pack_round_trip(s, check_time);
    lemma_local_best(s, m, max_dur, check_time, ACTION_COUNT);
}

/// `b` holds at least the resources of `s` (CP, durability, Manipulation,
/// Waste Not, Innovation, Great Strides, inner quiet, time) and agrees with
/// it on everything else.
pub open spec fn dominates(b: State, s: State) -> bool {
    &&& b.cp >= s.cp
    &&& b.durability >= s.durability
    &&& b.manipulation >= s.manipulation
    &&& b.waste_not >= s.waste_not
    &&& b.innovation >= s.innovation
    &&& b.great_strides >= s.great_strides
    &&& b.inner_quiet >= s.inner_quiet
    &&& b.time >= s.time
    &&& b.min_durability == s.min_durability
    &&& b.trained_perfection == s.trained_perfection
    &&& b.heart_and_soul == s.heart_and_soul
}

/// The quality of a result, -1 where there is none.
pub open spec fn quality_of(v: Option<u64>) -> int {
    match v {
        Some(r) => result_quality(r) as int,
        None => -1,
    }
}

proof fn lemma_igs_monotone(q1: int, i1: int, g1: int, iq1: int, q2: int, i2: int, g2: int, iq2: int)
    requires
        0 <= q1 <= q2,
        i1 <= i2,
        g1 <= g2,
        0 <= iq1 <= iq2,
    ensures
        igs(q1, i1, g1, iq1) <= igs(q2, i2, g2, iq2),
{
    let m1 = 2 + (if i1 > 0 { 1int } else { 0 }) + (if g1 > 0 { 2int } else { 0 });
    let m2 = 2 + (if i2 > 0 { 1int } else { 0 }) + (if g2 > 0 { 2int } else { 0 });
    assert(q1 * (10 + iq1) <= q2 * (10 + iq2)) by (nonlinear_arith)
        requires
            0 <= q1 <= q2,
            0 <= iq1 <= iq2,
    ;
    assert(q1 * (10 + iq1) / 20 <= q2 * (10 + iq2) / 20) by (nonlinear_arith)
        requires
            0 <= q1 * (10 + iq1) <= q2 * (10 + iq2),
    ;
    assert(q1 * (10 + iq1) / 20 * m1 <= q2 * (10 + iq2) / 20 * m2) by (nonlinear_arith)
        requires
            0 <= q1 * (10 + iq1) / 20 <= q2 * (10 + iq2) / 20,
            0 <= m1 <= m2,
    ;
}

proof fn lemma_halved_monotone(c1: int, c2: int, raw: int)
    requires
        0 <= c1 <= c2,
        0 <= raw,
    ensures
        c1 * raw / 2 <= c2 * raw / 2,
{
    assert(c1 * raw / 2 <= c2 * raw / 2) by (nonlinear_arith)
        requires
            0 <= c1 <= c2,
            0 <= raw,
    ;
}

/// The same action, taken from a state with more resources, leads to a
/// state with more resources and adds at least as much quality.
proof fn lemma_step_dominates(s: State, b: State, a: QualAction, max_dur: u8, check_time: bool)
    requires
        s.fits(),
        b.fits(),
        a.sane(),
        max_dur < 32,
        dominates(b, s),
        b.inner_quiet <= 10,
        applicable(s, a, check_time),
        a.effect != Effect::Prudent || b.waste_not == 0,
    ensures
        applicable(b, a, check_time),
        dominates(successor(b, a, max_dur, check_time), successor(s, a, max_dur, check_time)),
        successor(b, a, max_dur, check_time).inner_quiet <= 10,
        gain(b, a) >= gain(s, a),
{
    let (steps, delay) = wear_steps(s, a);
    if steps > 0 {
        lemma_halved_monotone(
            min_int(sat_sub(s.waste_not as int, delay), steps),
            min_int(sat_sub(b.waste_not as int, delay), steps),
            a.raw_dur_cost as int,
        );
    }
    assert(durability_needed(b, a) <= durability_needed(s, a));
    assert(wear(b, a) <= wear(s, a));
    let e0 = if a.effect == Effect::Byregot { UNIT * (10 + 2 * s.inner_quiet) / 10 } else { a.qual_value as int };
    let f0 = if a.effect == Effect::Byregot { UNIT * (10 + 2 * b.inner_quiet) / 10 } else { a.qual_value as int };
    assert(e0 <= f0);
    lemma_igs_monotone(
        e0,
        sat_sub(s.innovation as int, a.delay as int),
        sat_sub(s.great_strides as int, a.delay as int),
        min_int(s.inner_quiet as int, 10),
        f0,
        sat_sub(b.innovation as int, a.delay as int),
        sat_sub(b.great_strides as int, a.delay as int),
        min_int(b.inner_quiet as int, 10),
    );
    lemma_igs_monotone(
        if a.effect == Effect::Byregot { e0 } else { a.qual_value + 1 * a.scaling },
        sat_sub(s.innovation as int, a.delay + 1),
        0,
        min_int(s.inner_quiet + 1, 10),
        if a.effect == Effect::Byregot { f0 } else { a.qual_value + 1 * a.scaling },
        sat_sub(b.innovation as int, a.delay + 1),
        0,
        min_int(b.inner_quiet + 1, 10),
    );
    lemma_igs_monotone(
        if a.effect == Effect::Byregot { e0 } else { a.qual_value + 2 * a.scaling },
        sat_sub(s.innovation as int, a.delay + 2),
        0,
        min_int(s.inner_quiet + 2, 10),
        if a.effect == Effect::Byregot { f0 } else { a.qual_value + 2 * a.scaling },
        sat_sub(b.innovation as int, a.delay + 2),
        0,
        min_int(b.inner_quiet + 2, 10),
    );
    assert(step_quality(s, a, 0) <= step_quality(b, a, 0));
    assert(step_quality(s, a, 1) <= step_quality(b, a, 1));
    assert(step_quality(s, a, 2) <= step_quality(b, a, 2));
}

/// Basic Touch from a state under Waste Not does at least what Prudent
/// Touch does from a state with fewer resources and no Waste Not.
proof fn lemma_prudent_replaced(s: State, b: State, max_dur: u8, check_time: bool)
    requires
        s.fits(),
        b.fits(),
        max_dur < 32,
        dominates(b, s),
        b.inner_quiet <= 10,
        b.waste_not > 0,
        applicable(s, catalogue_spec(7)->0, check_time),
    ensures
        applicable(b, catalogue_spec(1)->0, check_time),
        dominates(
            successor(b, catalogue_spec(1)->0, max_dur, check_time),
            successor(s, catalogue_spec(7)->0, max_dur, check_time),
        ),
        successor(b, catalogue_spec(1)->0, max_dur, check_time).inner_quiet <= 10,
        gain(b, catalogue_spec(1)->0) >= gain(s, catalogue_spec(7)->0),
{
    let p = catalogue_spec(7)->0;
    let t = catalogue_spec(1)->0;
    lemma_igs_monotone(
        400,
        s.innovation as int,
        s.great_strides as int,
        min_int(s.inner_quiet as int, 10),
        400,
        b.innovation as int,
        b.great_strides as int,
        min_int(b.inner_quiet as int, 10),
    );
    assert(wear(b, t) <= wear(s, p));
    assert(durability_needed(b, t) <= durability_needed(s, p));
}

proof fn lemma_better_quality(x: Option<u64>, y: Option<u64>)
    ensures
        quality_of(better(x, y)) >= quality_of(x),
        quality_of(better(x, y)) >= quality_of(y),
        quality_of(better(x, y)) == quality_of(x) || quality_of(better(x, y)) == quality_of(y),
        x is Some ==> better(x, y) is Some,
        y is Some ==> better(x, y) is Some,
{
    if let (Some(a), Some(c)) = (x, y) {
        if c > a {
            lemma_result_quality_monotone(a, c);
        } else {
            lemma_result_quality_monotone(c, a);
        }
    }
}

/// Every candidate up to `n` is no better than `best_from(s, n)`.
proof fn lemma_best_from_bounds(s: State, max_dur: u8, check_time: bool, n: u8, j: u8)
    requires
        1 <= j <= n,
    ensures
        quality_of(best_from(s, max_dur, check_time, n)) >= quality_of(
            candidate(s, j, max_dur, check_time),
        ),
    decreases n,
{
    lemma_better_quality(
        best_from(s, max_dur, check_time, (n - 1) as u8),
        candidate(s, n, max_dur, check_time),
    );
    if j < n {
        lemma_best_from_bounds(s, max_dur, check_time, (n - 1) as u8, j);
    }
}

proof fn lemma_stop_kept(s: State, max_dur: u8, check_time: bool, n: u8)
    ensures
        stop_result(s) is Some ==> best_from(s, max_dur, check_time, n) is Some,
    decreases n,
{
    if n > 0 {
        lemma_stop_kept(s, max_dur, check_time, (n - 1) as u8);
        lemma_better_quality(
            best_from(s, max_dur, check_time, (n - 1) as u8),
            candidate(s, n, max_dur, check_time),
        );
    }
}

/// A candidate of `s` is matched, in quality, by `best_from(b, n)`: by the
/// same action, or by Basic Touch where Waste Not refuses Prudent Touch.
proof fn lemma_candidate_covered(s: State, b: State, max_dur: u8, check_time: bool, n: u8)
    requires
        s.fits(),
        b.fits(),
        max_dur < 32,
        dominates(b, s),
        b.inner_quiet <= 10,
        1 <= n <= ACTION_COUNT,
        candidate(s, n, max_dur, check_time) is Some,
    ensures
        quality_of(best_from(b, max_dur, check_time, n)) >= quality_of(
            candidate(s, n, max_dur, check_time),
        ),
    decreases s.cp, tp_unused(s), 0int,
{
    lemma_catalogue_sane(n);
    let a = catalogue_spec(n)->0;
    lemma_successor(s, a, max_dur, check_time);
    let ns = successor(s, a, max_dur, check_time);
    let r = value(ns, max_dur, check_time)->0;
    lemma_pack_fields_bound(
        bool_bit(ns.heart_and_soul),
        ns.trained_perfection as u64,
        ns.min_durability as u64,
        ns.great_strides as u64,
        ns.innovation as u64,
        ns.waste_not as u64,
        ns.manipulation as u64,
        ns.durability as u64,
        ns.cp as u64,
        ns.inner_quiet as u64,
        0,
    );
    lemma_pack_result(sat_quality(result_quality(r) + gain(s, a)), n, ns.index_spec(false));
    let j: u8 = if a.effect == Effect::Prudent && b.waste_not > 0 { 1 } else { n };
    lemma_catalogue_sane(j);
    let t = catalogue_spec(j)->0;
    if j == 1 && n != 1 {
        lemma_prudent_replaced(s, b, max_dur, check_time);
    } else {
        lemma_step_dominates(s, b, a, max_dur, check_time);
    }
    lemma_successor(b, t, max_dur, check_time);
    let nb = successor(b, t, max_dur, check_time);
    lemma_value_monotone(ns, nb, max_dur, check_time);
    let rb = value(nb, max_dur, check_time)->0;
    lemma_pack_fields_bound(
        bool_bit(nb.heart_and_soul),
        nb.trained_perfection as u64,
        nb.min_durability as u64,
        nb.great_strides as u64,
        nb.innovation as u64,
        nb.waste_not as u64,
        nb.manipulation as u64,
        nb.durability as u64,
        nb.cp as u64,
        nb.inner_quiet as u64,
        0,
    );
    lemma_pack_result(sat_quality(result_quality(rb) + gain(b, t)), j, nb.index_spec(false));
    assert(quality_of(candidate(b, j, max_dur, check_time)) >= quality_of(
        candidate(s, n, max_dur, check_time),
    ));
    lemma_best_from_bounds(b, max_dur, check_time, n, j);
}

proof fn lemma_best_from_monotone(s: State, b: State, max_dur: u8, check_time: bool, n: u8)
    requires
        s.fits(),
        b.fits(),
        max_dur < 32,
        dominates(b, s),
        b.inner_quiet <= 10,
        !is_terminal(s, check_time),
        !is_terminal(b, check_time),
        n <= ACTION_COUNT,
    ensures
        quality_of(best_from(b, max_dur, check_time, n)) >= quality_of(
            best_from(s, max_dur, check_time, n),
        ),
    decreases s.cp, tp_unused(s), n,
{
    if n > 0 {
        lemma_best_from_monotone(s, b, max_dur, check_time, (n - 1) as u8);
        let prev_s = best_from(s, max_dur, check_time, (n - 1) as u8);
        let prev_b = best_from(b, max_dur, check_time, (n - 1) as u8);
        lemma_better_quality(prev_s, candidate(s, n, max_dur, check_time));
        lemma_better_quality(prev_b, candidate(b, n, max_dur, check_time));
        if candidate(s, n, max_dur, check_time) is Some {
            lemma_candidate_covered(s, b, max_dur, check_time, n);
        }
    }
}

/// More resources never lower the best quality: where `s` has a result,
/// a state with at least its CP, durability, Manipulation, Waste Not,
/// Innovation, Great Strides, inner quiet and time, and the same other
/// fields, has one too, of at least the same quality.
pub proof fn lemma_value_monotone(s: State, b: State, max_dur: u8, check_time: bool)
    requires
        s.fits(),
        b.fits(),
        max_dur < 32,
        dominates(b, s),
        b.inner_quiet <= 10,
    ensures
        quality_of(value(b, max_dur, check_time)) >= quality_of(value(s, max_dur, check_time)),
    decreases s.cp, tp_unused(s), ACTION_COUNT + 1,
{
    lemma_sentinel_decodes();
    if is_terminal(s, check_time) {
        if !is_terminal(b, check_time) {
            lemma_stop_kept(b, max_dur, check_time, ACTION_COUNT);
        }
    } else {
        lemma_best_from_monotone(s, b, max_dur, check_time, ACTION_COUNT);
    }
}

/// Inner quiet never passes 10: any action from a state within 10 leads to
/// a state within 10.
pub proof fn lemma_inner_quiet_capped(s: State, id: u8, max_dur: u8, check_time: bool)
    requires
        s.inner_quiet <= 10,
        catalogue_spec(id) is Some,
    ensures
        successor(s, catalogue_spec(id)->0, max_dur, check_time).inner_quiet <= 10,
{
}

/// Waste Not followed at once by Basic Touch wears one unit of durability
/// instead of two, and leaves three steps of Waste Not (without
/// Manipulation repairs or an armed Trained Perfection, and within the
/// durability bound).
pub proof fn lemma_waste_not_basic_touch(s: State, max_dur: u8, check_time: bool)
    requires
        s.manipulation == 0,
        s.trained_perfection != 1,
        s.durability <= max_dur,
        applicable(s, catalogue_spec(10)->0, check_time),
        applicable(
            successor(s, catalogue_spec(10)->0, max_dur, check_time),
            catalogue_spec(1)->0,
            check_time,
        ),
    ensures
        successor(
            successor(s, catalogue_spec(10)->0, max_dur, check_time),
            catalogue_spec(1)->0,
            max_dur,
            check_time,
        ).durability == s.durability - 1,
        successor(
            successor(s, catalogue_spec(10)->0, max_dur, check_time),
            catalogue_spec(1)->0,
            max_dur,
            check_time,
        ).waste_not == 3,
{
}

/// Manipulation repairs nothing on the step it is cast.
pub proof fn lemma_manipulation_no_repair(s: State, max_dur: u8, check_time: bool)
    ensures
        successor(s, catalogue_spec(12)->0, max_dur, check_time).durability == s.durability,
        successor(s, catalogue_spec(12)->0, max_dur, check_time).manipulation == 8,
{
}

/// Trained Finesse may be taken only at full inner quiet.
pub proof fn lemma_finesse_needs_full_inner_quiet(s: State, check_time: bool)
    requires
        applicable(s, catalogue_spec(9)->0, check_time),
    ensures
        s.inner_quiet == 10,
{
}

/// The states that the actions with ids `1..=n` lead to from `s`, each
/// with the quality the action adds and its id, in id order.
pub open spec fn dependency_list(s: State, max_dur: u8, check_time: bool, n: u8) -> Seq<(State, u16, u8)>
    decreases n,
{
    if n == 0 {
        seq![]
    } else {
        let prev = dependency_list(s, max_dur, check_time, (n - 1) as u8);
        match catalogue_spec(n) {
            Some(a) => if applicable(s, a, check_time) {
                prev.push((successor(s, a, max_dur, check_time), gain(s, a) as u16, n))
            } else {
                prev
            },
            None => prev,
        }
    }
}

/// Every entry of `before` is still in `after`, unchanged.
pub open spec fn keeps(before: Map<u64, u64>, after: Map<u64, u64>) -> bool {
    forall|k: u64| #[trigger]
        before.contains_key(k) ==> after.contains_key(k) && after[k] == before[k]
}

/// The entry under `k` belongs to the state the key unpacks to: the key is
/// that state's own index, the state is not terminal, and every successor of
/// it that is not terminal is in `m`.
pub open spec fn closed_at(m: Map<u64, u64>, k: u64, max_dur: u8, check_time: bool) -> bool {
    let s = State::unpack_spec(k);
    &&& k == s.index_spec(check_time)
    &&& !is_terminal(s, check_time)
    &&& children_present(s, m, max_dur, check_time)
}

proof fn lemma_children_grow(s: State, m1: Map<u64, u64>, m2: Map<u64, u64>, max_dur: u8, check_time: bool)
    requires
        children_present(s, m1, max_dur, check_time),
        forall|k: u64| #[trigger] m1.contains_key(k) ==> m2.contains_key(k),
    ensures
        children_present(s, m2, max_dur, check_time),
{
}

proof fn lemma_children_normalized(s: State, m: Map<u64, u64>, max_dur: u8, check_time: bool)
    requires
        children_present(s, m, max_dur, check_time),
    ensures
        children_present(s.normalized(check_time), m, max_dur, check_time),
{
    let t = s.normalized(check_time);
    assert forall|id: u8|
        #![trigger catalogue_spec(id)]
        catalogue_spec(id) is Some && applicable(t, catalogue_spec(id)->0, check_time) implies ({
        let ns = successor(t, catalogue_spec(id)->0, max_dur, check_time);
        is_terminal(ns, check_time) || m.contains_key(ns.index_spec(check_time))
    }) by {
        let a = catalogue_spec(id)->0;
        assert(applicable(s, a, check_time) == applicable(t, a, check_time));
        assert(successor(s, a, max_dur, check_time) == successor(t, a, max_dur, check_time));
    };
}

/// No key appears in the image with two different results.
pub open spec fn image_agrees(img: Seq<(u64, u64)>) -> bool {
    forall|i: int, j: int|
        #![trigger img[i], img[j]]
        0 <= i < img.len() && 0 <= j < img.len() && img[i].0 == img[j].0 ==> img[i].1 == img[j].1
}

/// The map an image of `(key, result)` pairs describes.
pub open spec fn image_map(img: Seq<(u64, u64)>) -> Map<u64, u64> {
    Map::new(
        |k: u64| exists|i: int| 0 <= i < img.len() && img[i].0 == k,
        |k: u64| img[choose|i: int| 0 <= i < img.len() && img[i].0 == k].1,
    )
}

/// What the cache stores for a result: the result itself, or 0 for none.
pub open spec fn stored(v: Option<u64>) -> u64 {
    match v {
        Some(x) => x,
        None => 0,
    }
}

/// The memoised search: a map from state index to stored result.
pub struct DPCache {
    cache: HashMap<u64, u64>,
    check_time: bool,
    max_dur: u8,
}

impl DPCache {
    /// The cached entries.
    pub closed spec fn entries(&self) -> Map<u64, u64> {
        self.cache@
    }

    /// The largest durability a repair may restore.
    pub closed spec fn max_durability(&self) -> u8 {
        self.max_dur
    }

    /// Whether states are told apart, and cut short, by their time.
    pub closed spec fn checks_time(&self) -> bool {
        self.check_time
    }

    /// The key under which the result of state `index` at `time` is cached.
    pub open spec fn key_of(&self, time: u8, index: u64) -> u64 {
        if self.checks_time() {
            index | ((time as u64) << 37u64)
        } else {
            index
        }
    }

    /// Every entry is the stored result of the state its key unpacks to, and
    /// sits under that state's own key with its successors cached.
    pub closed spec fn wf(&self) -> bool {
        &&& self.max_dur < 32
        &&& forall|k: u64| #[trigger]
            self.cache@.contains_key(k) ==> self.cache@[k] == stored(
                value(State::unpack_spec(k), self.max_dur, self.check_time),
            ) && closed_at(self.cache@, k, self.max_dur, self.check_time)
    }

    /// Every non-empty entry of the cache decodes into "stop here" or into a
    /// first action, the successor it leads to, and a quality that is the
    /// successor's quality plus the action's gain.
    pub proof fn lemma_cached_entry_decodes(&self, k: u64)
        requires
            self.wf(),
            self.entries().contains_key(k),
            self.entries()[k] != 0,
        ensures
            value(State::unpack_spec(k), self.max_durability(), self.checks_time()) == Some(
                self.entries()[k],
            ),
            decodes(State::unpack_spec(k), self.entries()[k], self.max_durability(), self.checks_time()),
    {
        lemma_masks_bound(k);
        lemma_result_decodes(State::unpack_spec(k), self.max_dur, self.check_time);
    }

    /// The entries of a well-formed cache form a consistent image, so an
    /// image that `export` writes is accepted by `restore` on a cache with
    /// the same settings.
    pub proof fn lemma_entries_consistent(&self)
        requires
            self.wf(),
        ensures
            image_consistent(self.entries(), self.max_durability(), self.checks_time()),
    {
        let m = self.cache@;
        assert forall|k: u64| #[trigger] m.contains_key(k) implies {
            let s = State::unpack_spec(k);
            &&& k == s.index_spec(self.check_time)
            &&& !is_terminal(s, self.check_time)
            &&& children_present(s, m, self.max_dur, self.check_time)
            &&& m[k] == stored(local_best(s, m, self.max_dur, self.check_time, ACTION_COUNT))
        } by {
            let s = State::unpack_spec(k);
            lemma_masks_bound(k);
            lemma_pack_round_trip(s, self.check_time);
            self.lemma_local_best_cached(s, ACTION_COUNT);
        };
    }

    /// An image that `export` writes from a well-formed cache is accepted by
    /// `restore` on any well-formed cache with the same settings.
    pub proof fn lemma_exported_image_accepted(&self, image: Seq<(u64, u64)>)
        requires
            self.wf(),
            image_agrees(image),
            image_map(image) == self.entries(),
        ensures
            image_agrees(image) && image_consistent(
                image_map(image),
                self.max_durability(),
                self.checks_time(),
            ),
    {
        self.lemma_entries_consistent();
    }

    proof fn lemma_local_best_cached(&self, s: State, n: u8)
        requires
            self.wf(),
            s.fits(),
            s == s.normalized(self.check_time),
            children_present(s, self.cache@, self.max_dur, self.check_time),
            n <= ACTION_COUNT,
        ensures
            local_best(s, self.cache@, self.max_dur, self.check_time, n) == best_from(
                s,
                self.max_dur,
                self.check_time,
                n,
            ),
        decreases n,
    {
        let md = self.max_dur;
        let ct = self.check_time;
        let m = self.cache@;
        if n > 0 {
            self.lemma_local_best_cached(s, (n - 1) as u8);
            lemma_catalogue_sane(n);
            if let Some(a) = catalogue_spec(n) {
                if applicable(s, a, ct) {
                    lemma_successor(s, a, md, ct);
                    let ns = successor(s, a, md, ct);
                    if !is_terminal(ns, ct) {
                        let key = ns.index_spec(ct);
                        assert(m.contains_key(key));
                        lemma_pack_round_trip(ns, ct);
                        assert(State::unpack_spec(key) == ns);
                        lemma_value_nonzero(ns, md, ct);
                        assert(looked_up(ns, m, ct) == value(ns, md, ct));
                    }
                }
            }
            assert(local_candidate(s, n, m, md, ct) == candidate(s, n, md, ct));
        }
    }

    /// A well-formed cache keeps its durability bound within five bits.
    pub proof fn lemma_wf_bound(&self)
        requires
            self.wf(),
        ensures
            self.max_durability() < 32,
    {
    }

    /// The result the search gives for `s` with this cache's settings.
    pub open spec fn value_of(&self, s: State) -> Option<u64> {
        value(s, self.max_durability(), self.checks_time())
    }

    pub fn new(max_dur: u8, check_time: bool) -> (r: DPCache)
        requires
            max_dur < 32,
        ensures
            r.wf(),
            r.max_durability() == max_dur,
            r.checks_time() == check_time,
            r.entries() == Map::<u64, u64>::empty(),
    {
        DPCache { cache: HashMap::new(), check_time, max_dur }
    }

    pub fn max_dur(&self) -> (r: u8)
        ensures
            r == self.max_durability(),
    {
        self.max_dur
    }

    pub fn time_checked(&self) -> (r: bool)
        ensures
            r == self.checks_time(),
    {
        self.check_time
    }

    /// The successors of `state` that its result depends on, each with the
    /// quality its action adds and the action id, without querying them.
    pub fn dependencies(&self, state: &State) -> (r: Vec<(State, u16, u8)>)
        requires
            self.wf(),
            state.fits(),
        ensures
            r@ == dependency_list(*state, self.max_durability(), self.checks_time(), ACTION_COUNT),
    {
        let ghost md = self.max_dur;
        let ghost ct = self.check_time;
        let mut jobs: Vec<(State, u16, u8)> = Vec::new();
        let mut id: u8 = 1;
        while id <= ACTION_COUNT
            invariant
                1 <= id <= ACTION_COUNT + 1,
                self.max_dur == md,
                self.check_time == ct,
                md < 32,
                state.fits(),
                jobs@ == dependency_list(*state, md, ct, (id - 1) as u8),
            decreases ACTION_COUNT + 1 - id,
        {
            if let Some(a) = catalogue(id) {
                proof {
                    lemma_catalogue_sane(id);
                }
                if let Some(ns) = next_state(state, &a, self.max_dur, self.check_time) {
                    let g = quality_gain(state, &a);
                    jobs.push((ns, g, id));
                }
            }
            id = id + 1;
        }
        jobs
    }

    /// The cached entry of the state with packed `index` at `time`.
    pub fn get(&self, time: u8, index: u64) -> (r: Option<u64>)
        ensures
            r == (if self.entries().contains_key(self.key_of(time, index)) {
                Some(self.entries()[self.key_of(time, index)])
            } else {
                None
            }),
    {
        broadcast use vstd::std_specs::hash::group_hash_axioms;

        let key = if self.check_time { index | ((time as u64) << 37) } else { index };
        match self.cache.get(&key) {
            Some(v) => Some(*v),
            None => None,
        }
    }

    /// The cached entry of `state`, which is always its stored result.
    pub fn get_state(&self, state: &State) -> (r: Option<u64>)
        requires
            self.wf(),
            state.fits(),
        ensures
            r == (if self.entries().contains_key(state.index_spec(self.checks_time())) {
                Some(self.entries()[state.index_spec(self.checks_time())])
            } else {
                None
            }),
            r is Some ==> r->0 == stored(self.value_of(*state)),
    {
        broadcast use vstd::std_specs::hash::group_hash_axioms;

        let key = state.index(self.check_time);
        proof {
            lemma_pack_round_trip(*state, self.check_time);
            lemma_value_normalized(*state, self.max_dur, self.check_time);
        }
        match self.cache.get(&key) {
            Some(v) => Some(*v),
            None => None,
        }
    }

    /// Same as `get_state`.
    pub fn check(&self, state: &State) -> (r: Option<u64>)
        requires
            self.wf(),
            state.fits(),
        ensures
            r == (if self.entries().contains_key(state.index_spec(self.checks_time())) {
                Some(self.entries()[state.index_spec(self.checks_time())])
            } else {
                None
            }),
            r is Some ==> r->0 == stored(self.value_of(*state)),
    {
        self.get_state(state)
    }

    /// Caches `value`, which must be the stored result of the state that
    /// the key unpacks to; the key must be that state's own, the state not
    /// terminal, and its successors cached. Returns the entry it replaces.
    pub fn insert(&mut self, time: u8, index: u64, value: u64) -> (r: Option<u64>)
        requires
            old(self).wf(),
            value == stored(old(self).value_of(State::unpack_spec(old(self).key_of(time, index)))),
            closed_at(
                old(self).entries(),
                old(self).key_of(time, index),
                old(self).max_durability(),
                old(self).checks_time(),
            ),
        ensures
            final(self).wf(),
            final(self).max_durability() == old(self).max_durability(),
            final(self).checks_time() == old(self).checks_time(),
            final(self).entries() == old(self).entries().insert(old(self).key_of(time, index), value),
            r == (if old(self).entries().contains_key(old(self).key_of(time, index)) {
                Some(old(self).entries()[old(self).key_of(time, index)])
            } else {
                None
            }),
    {
        broadcast use vstd::std_specs::hash::group_hash_axioms;

        let key = if self.check_time { index | ((time as u64) << 37) } else { index };
        let ghost before = self.cache@;
        let r = self.cache.insert(key, value);
        proof {
            self.lemma_insert_keeps_wf(before, key);
        }
        r
    }

    /// Inserting a well-formed entry keeps the cache well formed.
    proof fn lemma_insert_keeps_wf(&self, before: Map<u64, u64>, key: u64)
        requires
            self.max_dur < 32,
            self.cache@ == before.insert(key, self.cache@[key]),
            forall|k: u64| #[trigger]
                before.contains_key(k) ==> before[k] == stored(
                    value(State::unpack_spec(k), self.max_dur, self.check_time),
                ) && closed_at(before, k, self.max_dur, self.check_time),
            self.cache@[key] == stored(value(State::unpack_spec(key), self.max_dur, self.check_time)),
            closed_at(before, key, self.max_dur, self.check_time),
        ensures
            self.wf(),
    {
        let m2 = self.cache@;
        assert forall|k: u64| #[trigger] m2.contains_key(k) implies m2[k] == stored(
            value(State::unpack_spec(k), self.max_dur, self.check_time),
        ) && closed_at(m2, k, self.max_dur, self.check_time) by {
            lemma_children_grow(State::unpack_spec(k), before, m2, self.max_dur, self.check_time);
        };
    }

    /// Caches `value`, which must be the stored result of `state`, a state
    /// that is not terminal and whose successors are cached; returns the
    /// entry it replaces.
    pub fn insert_state(&mut self, state: &State, value: u64) -> (r: Option<u64>)
        requires
            old(self).wf(),
            state.fits(),
            value == stored(old(self).value_of(*state)),
            !is_terminal(*state, old(self).checks_time()),
            children_present(*state, old(self).entries(), old(self).max_durability(), old(self).checks_time()),
        ensures
            final(self).wf(),
            final(self).max_durability() == old(self).max_durability(),
            final(self).checks_time() == old(self).checks_time(),
            final(self).entries() == old(self).entries().insert(
                state.index_spec(old(self).checks_time()),
                value,
            ),
            r == (if old(self).entries().contains_key(state.index_spec(old(self).checks_time())) {
                Some(old(self).entries()[state.index_spec(old(self).checks_time())])
            } else {
                None
            }),
    {
        broadcast use vstd::std_specs::hash::group_hash_axioms;

        let key = state.index(self.check_time);
        proof {
            lemma_pack_round_trip(*state, self.check_time);
            lemma_value_normalized(*state, self.max_dur, self.check_time);
            lemma_children_normalized(*state, self.cache@, self.max_dur, self.check_time);
        }
        let ghost before = self.cache@;
        let r = self.cache.insert(key, value);
        proof {
            self.lemma_insert_keeps_wf(before, key);
        }
        r
    }

    /// Every cached entry as a `(key, stored result)` pair, in no particular
    /// order.
    pub fn export(&self) -> (r: Vec<(u64, u64)>)
        ensures
            forall|i: int|
                0 <= i < r@.len() ==> self.entries().contains_key(#[trigger] r@[i].0)
                    && self.entries()[r@[i].0] == r@[i].1,
            forall|k: u64|
                #[trigger] self.entries().contains_key(k) ==> r@.contains((k, self.entries()[k])),
            image_agrees(r@),
            image_map(r@) == self.entries(),
    {
        broadcast use vstd::std_specs::hash::group_hash_axioms;

        let mut out: Vec<(u64, u64)> = Vec::new();
        let iter = self.cache.iter();
        let ghost all = IteratorSpec::remaining(&iter);
        for entry in it: iter
            invariant
                it.seq() == all,
                all == IteratorSpec::remaining(&vstd::std_specs::hash::spec_hash_map_iter(&self.cache)),
                out@.len() == it.index(),
                forall|i: int|
                    0 <= i < it.index() ==> out@[i] == (*all[i].0, *all[i].1),
                forall|i: int|
                    0 <= i < out@.len() ==> self.cache@.contains_key(#[trigger] out@[i].0)
                        && self.cache@[out@[i].0] == out@[i].1,
        {
            let (k, v) = entry;
            out.push((*k, *v));
        }
        proof {
            assert forall|k: u64| #[trigger] self.cache@.contains_key(k) implies out@.contains(
                (k, self.cache@[k]),
            ) by {
                assert(all.contains((&k, &self.cache@[k])));
                let i = choose|i: int| 0 <= i < all.len() && all[i] == (&k, &self.cache@[k]);
                assert(out@[i] == (k, self.cache@[k]));
            };
            let m = image_map(out@);
            assert forall|k: u64| m.contains_key(k) <==> self.cache@.contains_key(k) by {
                if self.cache@.contains_key(k) {
                    let i = choose|i: int| 0 <= i < out@.len() && out@[i] == (k, self.cache@[k]);
                    assert(out@[i].0 == k);
                }
                if m.contains_key(k) {
                    let i = choose|i: int| 0 <= i < out@.len() && out@[i].0 == k;
                    assert(self.cache@.contains_key(out@[i].0));
                }
            };
            assert forall|k: u64| #[trigger] m.contains_key(k) implies m[k] == self.cache@[k] by {
                let i = choose|i: int| 0 <= i < out@.len() && out@[i].0 == k;
                assert(self.cache@.contains_key(out@[i].0));
            };
            assert(m =~= self.cache@);
        }
        out
    }

    /// One step of the search from `s` over a loaded image: `None` where a
    /// successor that is not terminal is missing from the image.
    fn local_eval(&self, s: &State, staged: &HashMap<u64, u64>) -> (r: Option<Option<u64>>)
        requires
            self.wf(),
            s.fits(),
            !is_terminal(*s, self.checks_time()),
        ensures
            match r {
                Some(v) => children_present(*s, staged@, self.max_dur, self.check_time) && v
                    == local_best(*s, staged@, self.max_dur, self.check_time, ACTION_COUNT),
                None => !children_present(*s, staged@, self.max_dur, self.check_time),
            },
    {
        broadcast use vstd::std_specs::hash::group_hash_axioms;

        let ghost md = self.max_dur;
        let ghost ct = self.check_time;
        let mut best: Option<u64> = if s.durability >= s.min_durability { Some(1) } else { None };
        let mut id: u8 = 1;
        while id <= ACTION_COUNT
            invariant
                1 <= id <= ACTION_COUNT + 1,
                self.max_dur == md,
                self.check_time == ct,
                md < 32,
                s.fits(),
                best == local_best(*s, staged@, md, ct, (id - 1) as u8),
                forall|j: u8|
                    #![trigger catalogue_spec(j)]
                    j < id ==> (catalogue_spec(j) is Some && applicable(*s, catalogue_spec(j)->0, ct)
                        ==> ({
                        let ns = successor(*s, catalogue_spec(j)->0, md, ct);
                        is_terminal(ns, ct) || staged@.contains_key(ns.index_spec(ct))
                    })),
            decreases ACTION_COUNT + 1 - id,
        {
            let ghost before = best;
            if let Some(a) = catalogue(id) {
                proof {
                    lemma_catalogue_sane(id);
                }
                if let Some(ns) = next_state(s, &a, self.max_dur, self.check_time) {
                    proof {
                        lemma_successor(*s, a, md, ct);
                    }
                    let sub = if ns.cp < 7 || (self.check_time && ns.time < 2) {
                        if ns.durability < ns.min_durability { None } else { Some(1u64) }
                    } else {
                        match staged.get(&ns.index(self.check_time)) {
                            Some(v) => if *v == 0 { None } else { Some(*v) },
                            None => {
                                proof {
                                    assert(!children_present(*s, staged@, md, ct)) by {
                                        assert(catalogue_spec(id) is Some);
                                    }
                                }
                                return None;
                            },
                        }
                    };
                    if let Some(r) = sub {
                        let q = (r >> 48) as u16;
                        let g = quality_gain(s, &a);
                        let total: u16 = if q as u32 + g as u32 > u16::MAX as u32 {
                            u16::MAX
                        } else {
                            q + g
                        };
                        let packed = pack_method(total, id, &ns, false);
                        best = match best {
                            Some(b) => if packed > b { Some(packed) } else { Some(b) },
                            None => Some(packed),
                        };
                    }
                }
            }
            assert(best == better(before, local_candidate(*s, id, staged@, md, ct)));
            id = id + 1;
        }
        proof {
            assert forall|j: u8|
                #![trigger catalogue_spec(j)]
                catalogue_spec(j) is Some && applicable(*s, catalogue_spec(j)->0, ct) implies ({
                let ns = successor(*s, catalogue_spec(j)->0, md, ct);
                is_terminal(ns, ct) || staged@.contains_key(ns.index_spec(ct))
            }) by {
                lemma_catalogue_sane(j);
            };
        }
        Some(best)
    }

    /// Adopts a saved image of `(key, stored result)` pairs after checking
    /// it: it is accepted exactly when no key appears with two results and
    /// the image is consistent (every key is the index of a state that is
    /// not terminal, whose successors the image holds, and whose entry agrees
    /// with one step of the search over the image). A refused image leaves
    /// the cache unchanged.
    pub fn restore(&mut self, image: &Vec<(u64, u64)>) -> (ok: bool)
        requires
            old(self).wf(),
        ensures
            final(self).wf(),
            final(self).max_durability() == old(self).max_durability(),
            final(self).checks_time() == old(self).checks_time(),
            ok <==> (image_agrees(image@) && image_consistent(
                image_map(image@),
                old(self).max_durability(),
                old(self).checks_time(),
            )),
            !ok ==> final(self).entries() == old(self).entries(),
            ok ==> keeps(old(self).entries(), final(self).entries()),
            ok ==> forall|i: int|
                0 <= i < image@.len() ==> final(self).entries().contains_key(#[trigger] image@[i].0)
                    && final(self).entries()[image@[i].0] == image@[i].1 && image@[i].1 == stored(
                    old(self).value_of(State::unpack_spec(image@[i].0)),
                ),
    {
        broadcast use vstd::std_specs::hash::group_hash_axioms;

        let ghost md = self.max_dur;
        let ghost ct = self.check_time;
        let ghost orig = self.cache@;
        let mut staged: HashMap<u64, u64> = HashMap::new();
        let mut i: usize = 0;
        while i < image.len()
            invariant
                i <= image.len(),
                self.wf(),
                self.cache@ == orig,
                self.max_dur == md,
                self.check_time == ct,
                forall|j: int|
                    0 <= j < i ==> staged@.contains_key(#[trigger] image@[j].0) && staged@[image@[j].0]
                        == image@[j].1,
                forall|k: u64|
                    #[trigger] staged@.contains_key(k) ==> exists|j: int|
                        0 <= j < i && #[trigger] image@[j].0 == k,
                forall|j1: int, j2: int|
                    #![trigger image@[j1], image@[j2]]
                    0 <= j1 < i && 0 <= j2 < i && image@[j1].0 == image@[j2].0 ==> image@[j1].1
                        == image@[j2].1,
                forall|k: u64|
                    #[trigger] staged@.contains_key(k) ==> {
                        let s = State::unpack_spec(k);
                        &&& k == s.index_spec(ct)
                        &&& !is_terminal(s, ct)
                    },
            decreases image.len() - i,
        {
            let (k, v) = image[i];
            let s = State::unpack(k);
            if s.index(self.check_time) != k || s.cp < 7 || (self.check_time && s.time < 2) {
                proof {
                    assert(image_map(image@).contains_key(k)) by {
                        assert(image@[i as int].0 == k);
                    }
                }
                return false;
            }
            match staged.get(&k) {
                Some(w) => {
                    if *w != v {
                        proof {
                            let j = choose|j: int| 0 <= j < i && #[trigger] image@[j].0 == k;
                            assert(image@[j].1 == *w);
                            assert(image@[i as int].0 == image@[j].0);
                        }
                        return false;
                    }
                },
                None => {},
            }
            let ghost before = staged@;
            staged.insert(k, v);
            proof {
                assert forall|k2: u64| #[trigger] staged@.contains_key(k2) implies exists|j: int|
                    0 <= j < i + 1 && #[trigger] image@[j].0 == k2 by {
                    if k2 == k {
                        assert(image@[i as int].0 == k2);
                    } else {
                        assert(before.contains_key(k2));
                        let j = choose|j: int| 0 <= j < i && #[trigger] image@[j].0 == k2;
                        assert(image@[j].0 == k2);
                    }
                };
                assert forall|j1: int, j2: int|
                    #![trigger image@[j1], image@[j2]]
                    0 <= j1 < i + 1 && 0 <= j2 < i + 1 && image@[j1].0 == image@[j2].0 implies image@[j1].1
                        == image@[j2].1 by {
                    if j1 == i && j2 < i {
                        assert(before.contains_key(image@[j2].0));
                    } else if j2 == i && j1 < i {
                        assert(before.contains_key(image@[j1].0));
                    }
                };
            }
            i += 1;
        }
        proof {
            assert(image_agrees(image@));
            assert forall|k: u64| staged@.contains_key(k) <==> image_map(image@).contains_key(k) by {
                if staged@.contains_key(k) {
                    let j = choose|j: int| 0 <= j < image@.len() && #[trigger] image@[j].0 == k;
                }
            };
            assert forall|k: u64| #[trigger] image_map(image@).contains_key(k) implies image_map(image@)[k]
                == staged@[k] by {
                let j = choose|j: int| 0 <= j < image@.len() && image@[j].0 == k;
                assert(image@[j].0 == k);
            };
            assert(staged@ =~= image_map(image@));
        }
        let mut i: usize = 0;
        while i < image.len()
            invariant
                i <= image.len(),
                self.wf(),
                self.cache@ == orig,
                self.max_dur == md,
                self.check_time == ct,
                staged@ == image_map(image@),
                image_agrees(image@),
                forall|j: int|
                    0 <= j < image@.len() ==> staged@.contains_key(#[trigger] image@[j].0)
                        && staged@[image@[j].0] == image@[j].1,
                forall|k: u64|
                    #[trigger] staged@.contains_key(k) ==> exists|j: int|
                        0 <= j < image@.len() && #[trigger] image@[j].0 == k,
                forall|k: u64|
                    #[trigger] staged@.contains_key(k) ==> {
                        let s = State::unpack_spec(k);
                        &&& k == s.index_spec(ct)
                        &&& !is_terminal(s, ct)
                    },
                forall|j: int|
                    0 <= j < i ==> {
                        let s = State::unpack_spec(#[trigger] image@[j].0);
                        &&& children_present(s, staged@, md, ct)
                        &&& staged@[image@[j].0] == stored(local_best(s, staged@, md, ct, ACTION_COUNT))
                    },
            decreases image.len() - i,
        {
            let (k, v) = image[i];
            let s = State::unpack(k);
            proof {
                assert(staged@.contains_key(image@[i as int].0));
            }
            match self.local_eval(&s, &staged) {
                Some(r) => {
                    let w = match r {
                        Some(x) => x,
                        None => 0,
                    };
                    if w != v {
                        return false;
                    }
                },
                None => {
                    return false;
                },
            }
            i += 1;
        }
        proof {
            assert forall|k: u64| #[trigger] staged@.contains_key(k) implies {
                let s = State::unpack_spec(k);
                &&& k == s.index_spec(ct)
                &&& !is_terminal(s, ct)
                &&& children_present(s, staged@, md, ct)
                &&& staged@[k] == stored(local_best(s, staged@, md, ct, ACTION_COUNT))
            } by {
                let j = choose|j: int| 0 <= j < image@.len() && #[trigger] image@[j].0 == k;
            };
        }
        let ghost adopted = staged@;
        let mut i: usize = 0;
        while i < image.len()
            invariant
                i <= image.len(),
                self.max_dur == md,
                self.check_time == ct,
                md < 32,
                image_consistent(adopted, md, ct),
                forall|k: u64| #[trigger]
                    orig.contains_key(k) ==> orig[k] == stored(value(State::unpack_spec(k), md, ct))
                        && closed_at(orig, k, md, ct),
                forall|j: int|
                    0 <= j < image@.len() ==> adopted.contains_key(#[trigger] image@[j].0)
                        && adopted[image@[j].0] == image@[j].1,
                forall|k: u64|
                    #[trigger] adopted.contains_key(k) ==> exists|j: int|
                        0 <= j < image@.len() && #[trigger] image@[j].0 == k,
                keeps(orig, self.cache@),
                forall|k: u64| #[trigger]
                    self.cache@.contains_key(k) ==> (orig.contains_key(k) || adopted.contains_key(k))
                        && self.cache@[k] == stored(value(State::unpack_spec(k), md, ct)),
                forall|j: int|
                    0 <= j < i ==> self.cache@.contains_key(#[trigger] image@[j].0)
                        && self.cache@[image@[j].0] == image@[j].1,
            decreases image.len() - i,
        {
            let (k, v) = image[i];
            proof {
                lemma_image_sound(adopted, md, ct, k);
            }
            let ghost before = self.cache@;
            self.cache.insert(k, v);
            proof {
                assert forall|k2: u64| #[trigger] orig.contains_key(k2) implies self.cache@.contains_key(k2)
                    && self.cache@[k2] == orig[k2] by {
                    assert(before.contains_key(k2));
                };
            }
            i += 1;
        }
        proof {
            let m = self.cache@;
            assert forall|k: u64| #[trigger] adopted.contains_key(k) implies m.contains_key(k) by {
                let j = choose|j: int| 0 <= j < image@.len() && #[trigger] image@[j].0 == k;
            };
            assert forall|k: u64| #[trigger] m.contains_key(k) implies m[k] == stored(
                value(State::unpack_spec(k), md, ct),
            ) && closed_at(m, k, md, ct) by {
                if orig.contains_key(k) {
                    lemma_children_grow(State::unpack_spec(k), orig, m, md, ct);
                } else {
                    lemma_children_grow(State::unpack_spec(k), adopted, m, md, ct);
                }
            };
            assert forall|j: int| 0 <= j < image@.len() implies image@[j].1 == stored(
                value(State::unpack_spec(#[trigger] image@[j].0), md, ct),
            ) by {
                lemma_image_sound(adopted, md, ct, image@[j].0);
            };
        }
        true
    }

    /// The best packed result from `state`, computed and cached where it is
    /// not cached yet.
    pub fn query(&mut self, state: &State) -> (r: Option<u64>)
        requires
            old(self).wf(),
            state.fits(),
        ensures
            final(self).wf(),
            final(self).max_durability() == old(self).max_durability(),
            final(self).checks_time() == old(self).checks_time(),
            r == old(self).value_of(*state),
            keeps(old(self).entries(), final(self).entries()),
            old(self).entries().contains_key(state.index_spec(old(self).checks_time()))
                ==> final(self).entries() == old(self).entries(),
            is_terminal(*state, old(self).checks_time()) ==> final(self).entries() == old(
                self,
            ).entries(),
            !is_terminal(*state, old(self).checks_time()) ==> final(self).entries().contains_key(
                state.index_spec(old(self).checks_time()),
            ) && final(self).entries()[state.index_spec(old(self).checks_time())] == stored(r),
        decreases state.cp, tp_unused(*state),
    {
        broadcast use vstd::std_specs::hash::group_hash_axioms;

        let ghost md = self.max_dur;
        let ghost ct = self.check_time;
        let ghost orig = self.cache@;
        let key = state.index(self.check_time);
        proof {
            lemma_pack_round_trip(*state, ct);
            lemma_value_normalized(*state, md, ct);
            lemma_value_nonzero(*state, md, ct);
        }
        match self.cache.get(&key) {
            Some(v) => {
                let v = *v;
                return if v == 0 { None } else { Some(v) };
            },
            None => {},
        }
        if state.cp < 7 || (self.check_time && state.time < 2) {
            return if state.durability < state.min_durability { None } else { Some(1) };
        }
        let mut best: Option<u64> = if state.durability >= state.min_durability {
            Some(1)
        } else {
            None
        };
        let mut id: u8 = 1;
        while id <= ACTION_COUNT
            invariant
                1 <= id <= ACTION_COUNT + 1,
                self.wf(),
                self.max_dur == md,
                self.check_time == ct,
                state.fits(),
                !is_terminal(*state, ct),
                best == best_from(*state, md, ct, (id - 1) as u8),
                keeps(orig, self.cache@),
                forall|j: u8|
                    #![trigger catalogue_spec(j)]
                    j < id ==> (catalogue_spec(j) is Some && applicable(*state, catalogue_spec(j)->0, ct)
                        ==> ({
                        let ns = successor(*state, catalogue_spec(j)->0, md, ct);
                        is_terminal(ns, ct) || self.cache@.contains_key(ns.index_spec(ct))
                    })),
            decreases ACTION_COUNT + 1 - id,
        {
            let ghost before = best;
            if let Some(a) = catalogue(id) {
                proof {
                    lemma_catalogue_sane(id);
                }
                if let Some(ns) = next_state(state, &a, self.max_dur, self.check_time) {
                    proof {
                        lemma_successor(*state, a, md, ct);
                    }
                    let ghost mid = self.cache@;
                    let sub = self.query(&ns);
                    proof {
                        assert forall|k: u64| #[trigger] orig.contains_key(k) implies self.cache@.contains_key(k)
                            && self.cache@[k] == orig[k] by {
                            assert(mid.contains_key(k));
                        };
                        assert forall|j: u8|
                            #![trigger catalogue_spec(j)]
                            j < id && catalogue_spec(j) is Some && applicable(*state, catalogue_spec(j)->0, ct)
                                implies ({
                                let ns2 = successor(*state, catalogue_spec(j)->0, md, ct);
                                is_terminal(ns2, ct) || self.cache@.contains_key(ns2.index_spec(ct))
                            }) by {
                            let ns2 = successor(*state, catalogue_spec(j)->0, md, ct);
                            if !is_terminal(ns2, ct) {
                                assert(mid.contains_key(ns2.index_spec(ct)));
                            }
                        };
                    }
                    if let Some(r) = sub {
                        let q = (r >> 48) as u16;
                        let g = quality_gain(state, &a);
                        let total: u16 = if q as u32 + g as u32 > u16::MAX as u32 {
                            u16::MAX
                        } else {
                            q + g
                        };
                        let packed = pack_method(total, id, &ns, false);
                        best = match best {
                            Some(b) => if packed > b { Some(packed) } else { Some(b) },
                            None => Some(packed),
                        };
                    }
                }
            }
            assert(best == better(before, candidate(*state, id, md, ct)));
            id = id + 1;
        }
        let ghost mid = self.cache@;
        proof {
            assert forall|j: u8|
                #![trigger catalogue_spec(j)]
                catalogue_spec(j) is Some && applicable(*state, catalogue_spec(j)->0, ct) implies ({
                let ns2 = successor(*state, catalogue_spec(j)->0, md, ct);
                is_terminal(ns2, ct) || mid.contains_key(ns2.index_spec(ct))
            }) by {
                lemma_catalogue_sane(j);
            };
            assert(children_present(*state, mid, md, ct));
            lemma_children_normalized(*state, mid, md, ct);
        }
        self.cache.insert(key, match best { Some(b) => b, None => 0 });
        proof {
            let m2 = self.cache@;
            assert forall|k: u64| #[trigger] m2.contains_key(k) implies m2[k] == stored(
                value(State::unpack_spec(k), md, ct),
            ) && closed_at(m2, k, md, ct) by {
                if k == key {
                    lemma_children_grow(State::unpack_spec(k), mid, m2, md, ct);
                } else {
                    assert(mid.contains_key(k));
                    lemma_children_grow(State::unpack_spec(k), mid, m2, md, ct);
                }
            };
            assert forall|k: u64| #[trigger] orig.contains_key(k) implies self.cache@.contains_key(k)
                && self.cache@[k] == orig[k] by {
                assert(mid.contains_key(k));
                if k == key {
                    assert(orig[k] == stored(value(State::unpack_spec(k), md, ct)));
                }
            };
        }
        best
    }

    /// The query's result, with 0 for none.
    pub fn unwrapped_query(&mut self, state: &State) -> (r: u64)
        requires
            old(self).wf(),
            state.fits(),
        ensures
            final(self).wf(),
            final(self).max_durability() == old(self).max_durability(),
            final(self).checks_time() == old(self).checks_time(),
            r == stored(old(self).value_of(*state)),
    {
        match self.query(state) {
            Some(r) => r,
            None => 0,
        }
    }

    /// The time field of a packed index.
    pub fn get_time(ind: u64) -> (r: u8)
        ensures
            r == (ind >> 37u64) as u8,
    {
        (ind >> 37) as u8
    }

    /// Follows the best rotation from `st`, querying as it goes: each state it
    /// passes through, with the stored result of that state.
    pub fn trace(&mut self, st: &State) -> (r: Vec<(State, u64)>)
        requires
            old(self).wf(),
            st.fits(),
        ensures
            final(self).wf(),
            final(self).max_durability() == old(self).max_durability(),
            final(self).checks_time() == old(self).checks_time(),
            r@.len() == chain(st.normalized(old(self).checks_time()), old(self).max_durability(), old(self).checks_time()).len(),
            forall|i: int|
                0 <= i < r@.len() ==> #[trigger] r@[i] == (
                    chain(st.normalized(old(self).checks_time()), old(self).max_durability(), old(self).checks_time())[i],
                    stored(
                        old(self).value_of(
                            chain(st.normalized(old(self).checks_time()), old(self).max_durability(), old(self).checks_time())[i],
                        ),
                    ),
                ),
    {
        let ghost md = self.max_dur;
        let ghost ct = self.check_time;
        let ghost start = st.normalized(ct);
        let mut cur: State = if self.check_time { *st } else { State { time: 0, ..*st } };
        let mut out: Vec<(State, u64)> = Vec::new();
        loop
            invariant_except_break
                chain(start, md, ct) == out@.map_values(|p: (State, u64)| p.0) + chain(cur, md, ct),
            invariant
                self.wf(),
                self.max_dur == md,
                self.check_time == ct,
                md < 32,
                cur.fits(),
                cur == cur.normalized(ct),
                forall|i: int|
                    0 <= i < out@.len() ==> #[trigger] out@[i].1 == stored(value(out@[i].0, md, ct)),
            ensures
                chain(start, md, ct) == out@.map_values(|p: (State, u64)| p.0),
            decreases cur.cp, tp_unused(cur),
        {
            let packed = self.unwrapped_query(&cur);
            proof {
                lemma_sentinel_decodes();
                lemma_result_decodes(cur, md, ct);
                lemma_value_nonzero(cur, md, ct);
            }
            let ghost before = out@;
            out.push((cur, packed));
            proof {
                assert(out@.map_values(|p: (State, u64)| p.0) =~= before.map_values(
                    |p: (State, u64)| p.0,
                ).push(cur));
            }
            let (_quality, method, next) = unpack_method(packed);
            if method == 0 {
                proof {
                    assert(chain(cur, md, ct) =~= seq![cur]);
                    assert(chain(start, md, ct) =~= out@.map_values(|p: (State, u64)| p.0));
                }
                break ;
            }
            let a = match catalogue(method) {
                Some(a) => a,
                None => {
                    proof {
                        assert(false);
                    }
                    break ;
                },
            };
            proof {
                lemma_catalogue_sane(method);
                lemma_successor(cur, a, md, ct);
                let ns = successor(cur, a, md, ct);
                lemma_pack_round_trip(ns, false);
                assert(chain(cur, md, ct) =~= seq![cur] + chain(ns, md, ct));
            }
            let mut ns = State::unpack(next);
            if self.check_time {
                ns.time = cur.time - a.time_cost;
            }
            proof {
                assert(ns == successor(cur, a, md, ct));
                assert(chain(start, md, ct) =~= out@.map_values(|p: (State, u64)| p.0) + chain(ns, md, ct));
            }
            cur = ns;
        }
        proof {
            assert forall|i: int| 0 <= i < out@.len() implies #[trigger] out@[i] == (
                chain(start, md, ct)[i],
                stored(value(chain(start, md, ct)[i], md, ct)),
            ) by {
                assert(out@.map_values(|p: (State, u64)| p.0)[i] == out@[i].0);
            }
        }
        out
    }

    /// The state at which the best rotation from `st` stops.
    pub fn check_endstate(&mut self, st: &State) -> (r: State)
        requires
            old(self).wf(),
            st.fits(),
        ensures
            final(self).wf(),
            final(self).max_durability() == old(self).max_durability(),
            final(self).checks_time() == old(self).checks_time(),
            r == chain(st.normalized(old(self).checks_time()), old(self).max_durability(), old(self).checks_time()).last(),
    {
        let steps = self.trace(st);
        steps[steps.len() - 1].0
    }

    /// The time left at the state where the best rotation from `st` stops.
    pub fn check_time(&mut self, st: &State) -> (r: u8)
        requires
            old(self).wf(),
            st.fits(),
        ensures
            final(self).wf(),
            final(self).max_durability() == old(self).max_durability(),
            final(self).checks_time() == old(self).checks_time(),
            r == chain(st.normalized(old(self).checks_time()), old(self).max_durability(), old(self).checks_time()).last().time,
    {
        self.check_endstate(st).time
    }
}


/// Display name of an action id (0 is the finished sentinel).
pub open spec fn action_name_spec(id: u8) -> &'static str {
    match id {
        0 => "(finished)",
        1 => "Basic Touch",
        2 => "Standard Touch",
        3 => "Advanced Touch",
        4 => "Basic+Standard",
        5 => "Advanced Combo",
        6 => "Focused Touch",
        7 => "Prudent Touch",
        8 => "Preparatory Touch",
        9 => "Trained Finesse",
        10 => "Waste Not I",
        11 => "Waste Not II",
        12 => "Manipulation",
        13 => "Master's Mend",
        14 => "Innovation",
        15 => "Great Strides",
        16 => "Observe",
        17 => "Byregot's",
        18 => "Precise Touch",
        19 => "Basic+Refined",
        20 => "Immaculate Mend",
        21 => "Trained Perfection",
        _ => "",
    }
}

pub fn action_name(id: u8) -> (r: &'static str)
    ensures
        r == action_name_spec(id),
{
    match id {
        0 => "(finished)",
        1 => "Basic Touch",
        2 => "Standard Touch",
        3 => "Advanced Touch",
        4 => "Basic+Standard",
        5 => "Advanced Combo",
        6 => "Focused Touch",
        7 => "Prudent Touch",
        8 => "Preparatory Touch",
        9 => "Trained Finesse",
        10 => "Waste Not I",
        11 => "Waste Not II",
        12 => "Manipulation",
        13 => "Master's Mend",
        14 => "Innovation",
        15 => "Great Strides",
        16 => "Observe",
        17 => "Byregot's",
        18 => "Precise Touch",
        19 => "Basic+Refined",
        20 => "Immaculate Mend",
        21 => "Trained Perfection",
        _ => "",
    }
}

/// The macro commands an action id expands to, each with its wait in
/// seconds: combos expand to their atomic actions.
pub open spec fn macro_spec(id: u8) -> Seq<(&'static str, u8)> {
    match id {
        1 => seq![("Basic Touch", 3u8)],
        2 => seq![("Standard Touch", 3u8)],
        3 => seq![("Advanced Touch", 3u8)],
        4 => seq![("Basic Touch", 3u8), ("Standard Touch", 3u8)],
        5 => seq![("Basic Touch", 3u8), ("Standard Touch", 3u8), ("Advanced Touch", 3u8)],
        6 => seq![("Observe", 3u8), ("Focused Touch", 3u8)],
        7 => seq![("Prudent Touch", 3u8)],
        8 => seq![("Preparatory Touch", 3u8)],
        9 => seq![("Trained Finesse", 3u8)],
        10 => seq![("Waste Not", 2u8)],
        11 => seq![("Waste Not II", 2u8)],
        12 => seq![("Manipulation", 2u8)],
        13 => seq![("Master's Mend", 2u8)],
        14 => seq![("Innovation", 2u8)],
        15 => seq![("Great Strides", 2u8)],
        16 => seq![("Observe", 3u8)],
        17 => seq![("Byregot's Blessing", 3u8)],
        18 => seq![("Heart and Soul", 3u8), ("Precise Touch", 3u8)],
        19 => seq![("Basic Touch", 3u8), ("Refined Touch", 3u8)],
        20 => seq![("Immaculate Mend", 2u8)],
        21 => seq![("Trained Perfection", 2u8)],
        _ => seq![],
    }
}

pub fn macro_commands(id: u8) -> (r: Vec<(&'static str, u8)>)
    ensures
        r@ == macro_spec(id),
{
    match id {
        1 => vec![("Basic Touch", 3u8)],
        2 => vec![("Standard Touch", 3u8)],
        3 => vec![("Advanced Touch", 3u8)],
        4 => vec![("Basic Touch", 3u8), ("Standard Touch", 3u8)],
        5 => vec![("Basic Touch", 3u8), ("Standard Touch", 3u8), ("Advanced Touch", 3u8)],
        6 => vec![("Observe", 3u8), ("Focused Touch", 3u8)],
        7 => vec![("Prudent Touch", 3u8)],
        8 => vec![("Preparatory Touch", 3u8)],
        9 => vec![("Trained Finesse", 3u8)],
        10 => vec![("Waste Not", 2u8)],
        11 => vec![("Waste Not II", 2u8)],
        12 => vec![("Manipulation", 2u8)],
        13 => vec![("Master's Mend", 2u8)],
        14 => vec![("Innovation", 2u8)],
        15 => vec![("Great Strides", 2u8)],
        16 => vec![("Observe", 3u8)],
        17 => vec![("Byregot's Blessing", 3u8)],
        18 => vec![("Heart and Soul", 3u8), ("Precise Touch", 3u8)],
        19 => vec![("Basic Touch", 3u8), ("Refined Touch", 3u8)],
        20 => vec![("Immaculate Mend", 2u8)],
        21 => vec![("Trained Perfection", 2u8)],
        _ => vec![],
    }
}

} // verus!
