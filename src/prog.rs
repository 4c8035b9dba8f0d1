//! The progress phase: a deterministic simulator for opener strings, the
//! catalogue of openers, and the finishers that complete a craft.

use vstd::prelude::*;

verus! {

/// A progress-phase state.
#[derive(Debug, Clone, Copy, PartialEq, Eq, Structural)]
pub struct State {
    pub time: u8,
    pub inner_quiet: u8,
    pub cp: u16,
    /// Remaining durability, in units of five points.
    pub durability: u8,
    pub manipulation: u8,
    pub waste_not: u8,
    pub veneration: u8,
    pub muscle_memory: u8,
    /// Whether Heart and Soul has been spent (by Intensive Synthesis).
    pub heart_and_soul: bool,
    /// Whether the opener began with Reflect.
    pub reflect: bool,
    /// Accumulated progress, in tenths of 100% efficiency.
    pub progress: u16,
    /// 0: unused, 1: armed, 2: spent.
    pub trained_perfection: u8,
}

/// The status an action sets.
#[derive(Debug, Clone, Copy, PartialEq, Eq, Structural)]
pub enum Status {
    Plain,
    Manipulation,
    WasteNot,
    Veneration,
    MuscleMemory,
    TrainedPerfection,
}

/// A progress-phase action.
#[derive(Debug, Clone, Copy, PartialEq, Eq, Structural)]
pub struct Action {
    /// Efficiency, in tenths of 100%.
    pub progress: u16,
    /// Durability worn, in units of five points.
    pub durability: u8,
    pub cp: u16,
    pub status: Status,
    /// Steps the status lasts, where the action sets one.
    pub duration: u8,
}

impl Action {
    pub fn new(progress: u16, durability: u8, cp: u16, status: Status, duration: u8) -> (r: Action)
        ensures
            r == (Action { progress, durability, cp, status, duration }),
    {
        Action { progress, durability, cp, status, duration }
    }
}

pub open spec fn act(progress: u16, durability: u8, cp: u16, status: Status, duration: u8) -> Action {
    Action { progress, durability, cp, status, duration }
}

/// The action an opener character stands for; Reflect (`R`) and the
/// space are handled apart, and any other character stands for none.
pub open spec fn action_of(c: char) -> Option<Action> {
    match c {
        'b' => Some(act(12, 2, 0, Status::Plain, 0)),
        'c' => Some(act(18, 2, 7, Status::Plain, 0)),
        'f' => Some(act(20, 2, 12, Status::Plain, 0)),
        'p' => Some(act(18, 1, 18, Status::Plain, 0)),
        'g' => Some(act(36, 4, 18, Status::Plain, 0)),
        'M' => Some(act(30, 2, 6, Status::MuscleMemory, 5)),
        'v' => Some(act(0, 0, 18, Status::Veneration, 4)),
        'm' => Some(act(0, 0, 96, Status::Manipulation, 8)),
        '1' => Some(act(0, 0, 56, Status::WasteNot, 4)),
        '2' => Some(act(0, 0, 98, Status::WasteNot, 8)),
        'i' => Some(act(40, 2, 6, Status::Plain, 0)),
        '*' => Some(act(0, 0, 0, Status::TrainedPerfection, 0)),
        _ => None,
    }
}

pub fn action_for(c: char) -> (r: Option<Action>)
    ensures
        r == action_of(c),
{
    match c {
        'b' => Some(Action::new(12, 2, 0, Status::Plain, 0)),
        'c' => Some(Action::new(18, 2, 7, Status::Plain, 0)),
        'f' => Some(Action::new(20, 2, 12, Status::Plain, 0)),
        'p' => Some(Action::new(18, 1, 18, Status::Plain, 0)),
        'g' => Some(Action::new(36, 4, 18, Status::Plain, 0)),
        'M' => Some(Action::new(30, 2, 6, Status::MuscleMemory, 5)),
        'v' => Some(Action::new(0, 0, 18, Status::Veneration, 4)),
        'm' => Some(Action::new(0, 0, 96, Status::Manipulation, 8)),
        '1' => Some(Action::new(0, 0, 56, Status::WasteNot, 4)),
        '2' => Some(Action::new(0, 0, 98, Status::WasteNot, 8)),
        'i' => Some(Action::new(40, 2, 6, Status::Plain, 0)),
        '*' => Some(Action::new(0, 0, 0, Status::TrainedPerfection, 0)),
        _ => None,
    }
}

pub open spec fn add_u8(a: int, b: int) -> u8 {
    if a + b > u8::MAX { u8::MAX } else { (a + b) as u8 }
}

pub open spec fn add_u16(a: int, b: int) -> u16 {
    if a + b > u16::MAX { u16::MAX } else { (a + b) as u16 }
}

pub open spec fn dec(a: u8) -> u8 {
    if a > 0 { (a - 1) as u8 } else { 0 }
}

/// One status tick: every timer loses a step; Manipulation, where it ticks,
/// repairs one unit of durability; an armed Trained Perfection is spent.
pub open spec fn ticked(s: State, tick_manip: bool) -> State {
    let repairs = s.manipulation > 0 && tick_manip;
    State {
        waste_not: dec(s.waste_not),
        veneration: dec(s.veneration),
        muscle_memory: dec(s.muscle_memory),
        manipulation: if repairs { (s.manipulation - 1) as u8 } else { s.manipulation },
        durability: if repairs { add_u8(s.durability as int, 1) } else { s.durability },
        trained_perfection: if s.trained_perfection > 0 { 2 } else { s.trained_perfection },
        ..s
    }
}

/// Focused Synthesis, the one action of 12 CP, comes after an Observe that
/// ticks the statuses first.
pub open spec fn lead_in(s: State, a: Action) -> State {
    if a.cp == 12 { ticked(s, true) } else { s }
}

/// Durability the action wears: none under an armed Trained Perfection.
pub open spec fn wear_of(s: State, a: Action) -> int {
    if s.trained_perfection == 1 { 0 } else { a.durability as int }
}

/// The action is skipped when the durability (doubled under Waste Not) or
/// the CP does not cover it.
pub open spec fn refused(s: State, a: Action) -> bool {
    let t = lead_in(s, a);
    wear_of(t, a) > t.durability * (if t.waste_not > 0 { 2int } else { 1 }) || a.cp > t.cp
}

/// Progress the action adds: half again under Veneration, and its base
/// once more under Muscle Memory, which it then spends.
pub open spec fn progress_gain(t: State, a: Action) -> int {
    let p = a.progress + (if t.veneration > 0 { a.progress / 2 } else { 0 });
    if t.muscle_memory > 0 && p > 0 { p + a.progress } else { p }
}

/// The state once the action has worn durability, spent CP and added
/// progress and time, before the statuses tick.
pub open spec fn used(t: State, a: Action) -> State {
    let p = progress_gain(t, a);
    State {
        durability: (t.durability - (wear_of(t, a) / (if t.waste_not > 0 { 2int } else { 1 }))) as u8,
        cp: (t.cp - a.cp) as u16,
        heart_and_soul: a.progress == 40 || t.heart_and_soul,
        muscle_memory: if t.muscle_memory > 0 && p > 0 { 0 } else { t.muscle_memory },
        time: add_u8(t.time as int, if p > 0 { if a.progress == 20 { 5int } else { 3 } } else { 2 }),
        progress: add_u16(t.progress as int, p),
        ..t
    }
}

/// The status the action sets, over the ticked state.
pub open spec fn with_status(v: State, a: Action) -> State {
    match a.status {
        Status::Manipulation => State { manipulation: 8, ..v },
        Status::WasteNot => State { waste_not: a.duration, ..v },
        Status::Veneration => State { veneration: 4, ..v },
        Status::MuscleMemory => State { muscle_memory: 5, ..v },
        Status::TrainedPerfection => if v.trained_perfection == 0 {
            State { trained_perfection: 1, ..v }
        } else {
            v
        },
        Status::Plain => v,
    }
}

/// The state after the action, or the same state where it is refused.
pub open spec fn applied(s: State, a: Action) -> State {
    if refused(s, a) {
        s
    } else {
        with_status(ticked(used(lead_in(s, a), a), a.status != Status::Manipulation), a)
    }
}

/// Reflect: 2 durability and 18 CP for two stacks of inner quiet (held at
/// 10); skipped, like any action, where the resources do not cover it.
pub open spec fn reflected(s: State) -> State {
    if s.durability < 2 || s.cp < 18 {
        s
    } else {
        State {
            durability: (s.durability - 2) as u8,
            cp: (s.cp - 18) as u16,
            inner_quiet: if s.inner_quiet + 2 > 10 { 10 } else { (s.inner_quiet + 2) as u8 },
            reflect: true,
            time: add_u8(s.time as int, 3),
            ..s
        }
    }
}

pub open spec fn char_applied(s: State, c: char) -> State {
    if c == 'R' {
        reflected(s)
    } else {
        match action_of(c) {
            Some(a) => applied(s, a),
            None => s,
        }
    }
}

/// The state after each character of `cs` in turn.
pub open spec fn chars_applied(s: State, cs: Seq<char>) -> State
    decreases cs.len(),
{
    if cs.len() == 0 {
        s
    } else {
        char_applied(chars_applied(s, cs.drop_last()), cs.last())
    }
}

impl State {
    /// Runs the opener, then the extra character.
    pub fn apply_opener(&mut self, opener: &str, extra: char)
        ensures
            *final(self) == chars_applied(*old(self), opener@.push(extra)),
    {
        broadcast use vstd::string::group_string_axioms;

        let ghost start = *self;
        for c in it: opener.chars()
            invariant
                it.seq() == opener@,
                *self == chars_applied(start, opener@.take(it.index() as int)),
        {
            proof {
                assert(opener@.take(it.index() as int + 1).drop_last() =~= opener@.take(
                    it.index() as int,
                ));
            }
            self.apply_char(c);
        }
        proof {
            assert(opener@.take(opener@.len() as int) =~= opener@);
            assert(opener@.push(extra).drop_last() =~= opener@);
        }
        self.apply_char(extra);
    }

    pub fn apply_char(&mut self, c: char)
        ensures
            *final(self) == char_applied(*old(self), c),
    {
        if c == 'R' {
            if self.durability < 2 || self.cp < 18 {
                return ;
            }
            self.durability -= 2;
            self.cp -= 18;
            self.inner_quiet = if self.inner_quiet > 8 { 10 } else { self.inner_quiet + 2 };
            self.reflect = true;
            self.time = if self.time > u8::MAX - 3 { u8::MAX } else { self.time + 3 };
            return ;
        }
        match action_for(c) {
            Some(a) => self.apply_action(&a),
            None => {},
        }
    }

    pub fn apply_action(&mut self, act: &Action)
        ensures
            *final(self) == applied(*old(self), *act),
    {
        let mut t = *self;
        if act.cp == 12 {
            t.tick_statuses(true);
        }
        let wear: u16 = if t.trained_perfection == 1 { 0 } else { act.durability as u16 };
        let room: u16 = if t.waste_not > 0 { t.durability as u16 * 2 } else { t.durability as u16 };
        if wear > room || act.cp > t.cp {
            return ;
        }
        let mut v = use_resources(&t, act);
        v.tick_statuses(act.status != Status::Manipulation);
        *self = set_status(v, act);
    }

    pub fn tick_statuses(&mut self, tick_manip: bool)
        ensures
            *final(self) == ticked(*old(self), tick_manip),
    {
        if self.waste_not > 0 {
            self.waste_not -= 1;
        }
        if self.veneration > 0 {
            self.veneration -= 1;
        }
        if self.muscle_memory > 0 {
            self.muscle_memory -= 1;
        }
        if self.manipulation > 0 && tick_manip {
            self.manipulation -= 1;
            if self.durability < u8::MAX {
                self.durability += 1;
            }
        }
        if self.trained_perfection > 0 {
            self.trained_perfection = 2;
        }
    }
}


fn use_resources(t: &State, a: &Action) -> (r: State)
    requires
        !(wear_of(*t, *a) > t.durability * (if t.waste_not > 0 { 2int } else { 1 }) || a.cp > t.cp),
    ensures
        r == used(*t, *a),
{
    let wear: u8 = if t.trained_perfection == 1 { 0 } else { a.durability };
    let worn: u8 = if t.waste_not > 0 { wear / 2 } else { wear };
    let mut gained: u32 = a.progress as u32;
    if t.veneration > 0 {
        gained = gained + a.progress as u32 / 2;
    }
    let spends_mm = t.muscle_memory > 0 && gained > 0;
    if spends_mm {
        gained = gained + a.progress as u32;
    }
    let spent_time: u8 = if gained > 0 {
        if a.progress == 20 { 5 } else { 3 }
    } else {
        2
    };
    State {
        durability: t.durability - worn,
        cp: t.cp - a.cp,
        heart_and_soul: a.progress == 40 || t.heart_and_soul,
        muscle_memory: if spends_mm { 0 } else { t.muscle_memory },
        time: if t.time as u16 + spent_time as u16 > u8::MAX as u16 {
            u8::MAX
        } else {
            t.time + spent_time
        },
        progress: if t.progress as u32 + gained > u16::MAX as u32 {
            u16::MAX
        } else {
            t.progress + gained as u16
        },
        ..*t
    }
}

fn set_status(v: State, a: &Action) -> (r: State)
    ensures
        r == with_status(v, *a),
{
    let mut r = v;
    match a.status {
        Status::Manipulation => {
            r.manipulation = 8;
        },
        Status::WasteNot => {
            r.waste_not = a.duration;
        },
        Status::Veneration => {
            r.veneration = 4;
        },
        Status::MuscleMemory => {
            r.muscle_memory = 5;
        },
        Status::TrainedPerfection => {
            if r.trained_perfection == 0 {
                r.trained_perfection = 1;
            }
        },
        Status::Plain => {},
    }
    r
}


/// A fixed closing sequence that completes the craft.
#[derive(Debug, Clone, Copy)]
pub struct Finisher {
    pub time: u8,
    pub cp: u16,
    /// Durability it needs, in units of five points.
    pub durability: u8,
    pub progress: u16,
    /// Whether it spends Heart and Soul.
    pub heart_and_soul: bool,
    pub uses_trained_perfection: bool,
    /// Its actions as opener characters.
    pub description: &'static str,
}

impl Finisher {
    pub fn new(
        time: u8,
        cp: u16,
        durability: u8,
        progress: u16,
        uses_trained_perfection: bool,
        heart_and_soul: bool,
        description: &'static str,
    ) -> (r: Finisher)
        ensures
            r == (Finisher {
                time,
                cp,
                durability,
                progress,
                heart_and_soul,
                uses_trained_perfection,
                description,
            }),
    {
        Finisher { time, cp, durability, progress, heart_and_soul, uses_trained_perfection, description }
    }

    /// Every field agrees, the description's text included.
    pub open spec fn same_as(&self, other: &Finisher) -> bool {
        &&& self.time == other.time
        &&& self.cp == other.cp
        &&& self.durability == other.durability
        &&& self.progress == other.progress
        &&& self.heart_and_soul == other.heart_and_soul
        &&& self.uses_trained_perfection == other.uses_trained_perfection
        &&& self.description@ == other.description@
    }

    /// Costs no more CP, durability or time than `other`, needs Heart and
    /// Soul only where `other` does, and differs from it.
    pub open spec fn beats_spec(&self, other: &Finisher) -> bool {
        &&& self.cp <= other.cp
        &&& self.durability <= other.durability
        &&& self.time <= other.time
        &&& !(self.heart_and_soul && !other.heart_and_soul)
        &&& !self.same_as(other)
    }

    pub fn beats(&self, other: &Finisher) -> (r: bool)
        ensures
            r == self.beats_spec(other),
    {
        self.cp <= other.cp && self.durability <= other.durability && self.time <= other.time
            && !(self.heart_and_soul && !other.heart_and_soul) && !(self.time == other.time
            && self.cp == other.cp && self.durability == other.durability && self.progress
            == other.progress && self.heart_and_soul == other.heart_and_soul
            && self.uses_trained_perfection == other.uses_trained_perfection && same_text(
            self.description,
            other.description,
        ))
    }
}

/// The characters of `s`, in order.
fn chars_of(s: &str) -> (r: Vec<char>)
    ensures
        r@ == s@,
{
    broadcast use vstd::string::group_string_axioms;

    let mut out: Vec<char> = Vec::new();
    for c in it: s.chars()
        invariant
            it.seq() == s@,
            out@ == s@.take(it.index() as int),
    {
        proof {
            assert(s@.take(it.index() as int + 1) =~= s@.take(it.index() as int).push(c));
        }
        out.push(c);
    }
    proof {
        assert(s@.take(s@.len() as int) =~= s@);
    }
    out
}

/// Whether two strings hold the same characters.
fn same_text(a: &str, b: &str) -> (r: bool)
    ensures
        r == (a@ == b@),
{
    let x = chars_of(a);
    let y = chars_of(b);
    if x.len() != y.len() {
        return false;
    }
    let mut i: usize = 0;
    while i < x.len()
        invariant
            x@ == a@,
            y@ == b@,
            x@.len() == y@.len(),
            i <= x@.len(),
            forall|j: int| 0 <= j < i ==> x@[j] == y@[j],
        decreases x.len() - i,
    {
        if x[i] != y[i] {
            proof {
                assert(x@[i as int] != y@[i as int]);
            }
            return false;
        }
        i += 1;
    }
    proof {
        assert(x@ =~= y@);
    }
    true
}

/// No finisher beats itself.
pub proof fn lemma_finisher_beats_irreflexive(a: Finisher)
    ensures
        !a.beats_spec(&a),
{
}

pub const FINISHER_COUNT: usize = 21;

pub open spec fn fin(
    time: u8,
    cp: u16,
    durability: u8,
    progress: u16,
    uses_trained_perfection: bool,
    heart_and_soul: bool,
    description: &'static str,
) -> Finisher {
    Finisher { time, cp, durability, progress, heart_and_soul, uses_trained_perfection, description }
}

/// The finisher catalogue, by position.
pub open spec fn finisher_spec(i: usize) -> Finisher {
    match i {
        0 => fin(3, 0, 1, 12, false, false, "b"),
        1 => fin(3, 7, 1, 18, false, false, "c"),
        2 => fin(5, 6, 1, 40, false, true, "i"),
        3 => fin(5, 25, 1, 27, false, false, "vc"),
        4 => fin(7, 24, 1, 60, false, true, "vi"),
        5 => fin(8, 18, 1, 48, true, false, "*gb"),
        6 => fin(8, 25, 1, 54, true, false, "*gc"),
        7 => fin(10, 24, 1, 76, true, true, "*gi"),
        8 => fin(10, 43, 1, 81, true, false, "v*gc"),
        9 => fin(12, 42, 1, 114, true, true, "v*gi"),
        10 => fin(6, 18, 2, 30, false, false, "pb"),
        11 => fin(6, 25, 2, 36, false, false, "pc"),
        12 => fin(8, 24, 2, 58, false, true, "pi"),
        13 => fin(8, 43, 2, 54, false, false, "vpc"),
        14 => fin(8, 36, 2, 45, false, false, "vpb"),
        15 => fin(10, 42, 2, 87, false, true, "vpi"),
        16 => fin(6, 7, 3, 30, false, false, "bc"),
        17 => fin(6, 0, 3, 24, false, false, "bb"),
        18 => fin(6, 14, 3, 36, false, false, "cc"),
        19 => fin(8, 6, 3, 52, false, true, "bi"),
        20 => fin(8, 13, 3, 58, false, true, "ci"),
        _ => fin(0, 0, 0, 0, false, false, ""),
    }
}

pub fn finisher(i: usize) -> (r: Finisher)
    requires
        i < FINISHER_COUNT,
    ensures
        r == finisher_spec(i),
{
    match i {
        0 => Finisher::new(3, 0, 1, 12, false, false, "b"),
        1 => Finisher::new(3, 7, 1, 18, false, false, "c"),
        2 => Finisher::new(5, 6, 1, 40, false, true, "i"),
        3 => Finisher::new(5, 25, 1, 27, false, false, "vc"),
        4 => Finisher::new(7, 24, 1, 60, false, true, "vi"),
        5 => Finisher::new(8, 18, 1, 48, true, false, "*gb"),
        6 => Finisher::new(8, 25, 1, 54, true, false, "*gc"),
        7 => Finisher::new(10, 24, 1, 76, true, true, "*gi"),
        8 => Finisher::new(10, 43, 1, 81, true, false, "v*gc"),
        9 => Finisher::new(12, 42, 1, 114, true, true, "v*gi"),
        10 => Finisher::new(6, 18, 2, 30, false, false, "pb"),
        11 => Finisher::new(6, 25, 2, 36, false, false, "pc"),
        12 => Finisher::new(8, 24, 2, 58, false, true, "pi"),
        13 => Finisher::new(8, 43, 2, 54, false, false, "vpc"),
        14 => Finisher::new(8, 36, 2, 45, false, false, "vpb"),
        15 => Finisher::new(10, 42, 2, 87, false, true, "vpi"),
        16 => Finisher::new(6, 7, 3, 30, false, false, "bc"),
        17 => Finisher::new(6, 0, 3, 24, false, false, "bb"),
        18 => Finisher::new(6, 14, 3, 36, false, false, "cc"),
        19 => Finisher::new(8, 6, 3, 52, false, true, "bi"),
        20 => Finisher::new(8, 13, 3, 58, false, true, "ci"),
        _ => Finisher::new(0, 0, 0, 0, false, false, ""),
    }
}

/// The opener catalogue: buff set-ups worth trying before the quality phase.
pub const OPENERS: [&'static str; 48] = [
    "Mmv1g",
    "Mmv2g",
    "Mmv1gg",
    "Mmv2gg",
    "Mmv1ggg",
    "Mmv2ggg",
    "Mmv1ig",
    "Mmv2ig",
    "Mmv1igg",
    "Mmv2igg",
    "Mmv1iggg",
    "Mmv2iggg",
    "Mmv1igg*g",
    "Mmv2igg*g",
    "Mmvi1g",
    "Mmvi2g",
    "Mmvi1gg",
    "Mmvi2gg",
    "Mmvi1ggg",
    "Mmvi2ggg",
    "Rmv1gg",
    "Rmv2gg",
    "Rmv1ggg",
    "Rmv2ggg",
    "Rmv1gggg",
    "Rmv2gggg",
    "Rmv2ggggg",
    "Rmv1ig",
    "Rmv2ig",
    "Rmv1igg",
    "Rmv2igg",
    "Rmv1iggg",
    "Rmv2iggg",
    "Rmv2igggg",
    "Rmvi1g",
    "Rmvi2g",
    "Rmvi1gg",
    "Rmvi2gg",
    "Rmvi1ggg",
    "Rmvi2ggg",
    "Rmvi2gggg",
    "R",
    "M",
    "Mmvipp",
    "M1g",
    "M2g",
    "Mi",
    "Mg",
];

} // verus!
