//! The precise scheduler: a pattern compiled to sample offsets within one cycle,
//! and the events it gives out for each audio buffer.
use vstd::prelude::*;
use std::collections::HashMap;
use crate::playback::{
    all_settled, channel_of, delivered, drain, dropped, ends_only, in_order, is_end, off_pair,
    on_channels, play_entries, play_entry, released, retimed, starts_only, table_on_channels,
    tidy, timed_before, voice_of, Playback,
};
use crate::dur::{lemma_ratio_add_left, lemma_same_value_trans, ratio_add, same_value, Ratio};
use crate::numbers::{abs, lemma_lcm_cofactors};
use crate::pattern::{
    dens_lcm, dens_positive, event_ok, lemma_dens_lcm_positive, lemma_total_den_positive,
    note_ok, total_dur, ActionView, CtrlEvent, EventType, EventView, Note, Pattern, PatternView,
};

verus! {

/// Whether a note goes on, goes off, or is the placeholder of a rest.
#[derive(Clone, Copy, Debug, PartialEq, Eq)]
pub enum NoteType {
    On,
    Off,
    Rest,
}

/// A channel, 1 to 16.
pub type Channel = u8;

/// A note number, 0 to 127.
pub type NoteNum = u8;

/// The id that tells the voices of one note apart.
pub type VoiceID = i32;

/// A note going on or off, or the placeholder that a rest leaves in a schedule.
/// In a schedule `timing` is the offset within the cycle; in what `get_events`
/// gives out it is the offset within the buffer.
#[derive(Clone, Copy, Debug, PartialEq, Eq)]
pub struct SimpleNoteEvent {
    pub note_type: NoteType,
    pub timing: u32,
    pub voice_id: Option<VoiceID>,
    pub channel: Channel,
    pub note: u8,
    pub velocity: u8,
    pub note_length_samples: usize,
}

/// A controller change; `value` counts hundredths of full scale.
#[derive(Clone, Copy, Debug, PartialEq, Eq)]
pub struct SimpleCtrlEvent {
    pub timing: u32,
    pub channel: Channel,
    pub cc: u8,
    pub value: u8,
}

/// The end of a voice, told to the host behind its note-off.
#[derive(Clone, Copy, Debug, PartialEq, Eq)]
pub struct VoiceTerminatedEvent {
    pub timing: u32,
    pub channel: Channel,
    pub voice_id: Option<VoiceID>,
    pub note: u8,
}

/// An event with its place in samples.
#[derive(Clone, Copy, Debug, PartialEq, Eq)]
pub enum PreciseEventType {
    Note(SimpleNoteEvent),
    Ctrl(SimpleCtrlEvent),
    VoiceTerminated(VoiceTerminatedEvent),
}

/// The share of `rem` left-over samples that event `i` of `n` gets: an equal
/// part each, and one more for the first `rem % n` events.
pub open spec fn extra_share(rem: int, n: int, i: int) -> int {
    rem / n + if i < rem % n {
        1int
    } else {
        0int
    }
}

/// The sum of a sequence of sample counts.
pub open spec fn total(s: Seq<int>) -> int
    decreases s.len(),
{
    if s.len() == 0 {
        0
    } else {
        total(s.drop_last()) + s.last()
    }
}

/// The shares of the first `k` events add up to `k` equal parts and one more for
/// each event that gets one.
proof fn lemma_shares_prefix(rem: int, n: int, k: int)
    requires
        0 <= rem,
        0 < n,
        0 <= k <= n,
    ensures
        total(Seq::new(k as nat, |i: int| extra_share(rem, n, i))) == k * (rem / n) + if k < rem % n {
            k
        } else {
            rem % n
        },
    decreases k,
{
    let s = Seq::new(k as nat, |i: int| extra_share(rem, n, i));
    let q = rem / n;
    if k > 0 {
        lemma_shares_prefix(rem, n, k - 1);
        assert(s.drop_last() =~= Seq::new((k - 1) as nat, |i: int| extra_share(rem, n, i)));
        assert(s.last() == extra_share(rem, n, k - 1));
        assert(total(s) == total(s.drop_last()) + s.last());
        assert(k * q == (k - 1) * q + q) by (nonlinear_arith);
    } else {
        vstd::arithmetic::div_mod::lemma_mod_bound(rem, n);
        assert(total(s) == 0);
        assert(k * q == 0) by (nonlinear_arith)
            requires
                k == 0,
        ;
    }
}

/// The shares of all `n` events add up to `rem`: nothing is lost and nothing
/// is added.
pub proof fn lemma_shares_total(rem: int, n: int)
    requires
        0 <= rem,
        0 < n,
    ensures
        total(Seq::new(n as nat, |i: int| extra_share(rem, n, i))) == rem,
{
    lemma_shares_prefix(rem, n, n);
    vstd::arithmetic::div_mod::lemma_fundamental_div_mod(rem, n);
    vstd::arithmetic::div_mod::lemma_mod_bound(rem, n);
}

/// Splits `samples_remainder` left-over samples among `num_events` events.
pub fn compute_extra_samples(samples_remainder: i64, num_events: usize) -> (r: Vec<i64>)
    requires
        0 <= samples_remainder,
        0 < num_events <= i64::MAX,
    ensures
        r@.len() == num_events,
        forall|i: int|
            0 <= i < num_events ==> r@[i] == extra_share(
                samples_remainder as int,
                num_events as int,
                i,
            ),
        total(r@.map_values(|x: i64| x as int)) == samples_remainder,
{
    let n: i64 = num_events as i64;
    let samps_per_event: i64 = samples_remainder / n;
    let remainder: i64 = samples_remainder % n;
    let mut extra_samples: Vec<i64> = Vec::new();
    let mut idx: usize = 0;
    proof {
        vstd::arithmetic::div_mod::lemma_fundamental_div_mod(samples_remainder as int, n as int);
        vstd::arithmetic::div_mod::lemma_mod_bound(samples_remainder as int, n as int);
        vstd::arithmetic::div_mod::lemma_div_pos_is_pos(samples_remainder as int, n as int);
        assert(samps_per_event <= samples_remainder && (remainder > 0 ==> samps_per_event
            < samples_remainder)) by (nonlinear_arith)
            requires
                samples_remainder == n * samps_per_event + remainder,
                remainder >= 0,
                n >= 1,
                samps_per_event >= 0,
        ;
    }
    while idx < num_events
        invariant
            idx <= num_events,
            n == num_events,
            0 <= samps_per_event <= samples_remainder,
            remainder > 0 ==> samps_per_event < samples_remainder,
            samps_per_event == samples_remainder as int / n as int,
            remainder == samples_remainder as int % n as int,
            0 <= remainder < n,
            extra_samples@.len() == idx,
            forall|i: int|
                0 <= i < idx ==> extra_samples@[i] == extra_share(
                    samples_remainder as int,
                    num_events as int,
                    i,
                ),
        decreases num_events - idx,
    {
        if (idx as i64) < remainder {
            extra_samples.push(samps_per_event + 1);
        } else {
            extra_samples.push(samps_per_event);
        }
        idx += 1;
    }
    proof {
        lemma_shares_total(samples_remainder as int, num_events as int);
        assert(extra_samples@.map_values(|x: i64| x as int) =~= Seq::new(
            num_events as nat,
            |i: int| extra_share(samples_remainder as int, num_events as int, i),
        ));
    }
    extra_samples
}

/// A voice that is sounding: the note it plays and the id it was given.
#[derive(Clone, Copy, Debug, PartialEq, Eq)]
pub struct ActiveVoice {
    pub channel: Channel,
    pub note: NoteNum,
    pub voice_id: VoiceID,
}

/// One compiled pattern.
///
/// `events` holds, by offset within the cycle, what starts there: notes going
/// on, controller changes and rest placeholders. `notes_playing` holds the
/// voices that sound, at most one for each channel and note, oldest first.
/// `future_events` holds, by position in the song, the note-offs that are
/// still to come. `next_voice_id` is the id that the next note gets.
#[derive(Debug, PartialEq, Eq)]
pub struct PrecisePattern {
    pub events: HashMap<usize, Vec<PreciseEventType>>,
    pub length_samples: usize,
    pub playing: bool,
    pub notes_playing: Vec<ActiveVoice>,
    pub future_events: HashMap<i128, Vec<PreciseEventType>>,
    pub next_voice_id: VoiceID,
}

/// A compiled pattern as a mathematical value.
pub struct ScheduleView {
    pub events: Map<usize, Seq<PreciseEventType>>,
    pub length_samples: usize,
    pub playing: bool,
    pub voices: Seq<ActiveVoice>,
    pub future: Map<i128, Seq<PreciseEventType>>,
    pub next_voice: VoiceID,
}

/// A table of event lists, each list taken by its view.
pub open spec fn table<K>(m: Map<K, Vec<PreciseEventType>>) -> Map<K, Seq<PreciseEventType>> {
    Map::new(|k: K| m.contains_key(k), |k: K| m[k]@)
}

impl View for PrecisePattern {
    type V = ScheduleView;

    open spec fn view(&self) -> ScheduleView {
        ScheduleView {
            events: table(self.events@),
            length_samples: self.length_samples,
            playing: self.playing,
            voices: self.notes_playing@,
            future: table(self.future_events@),
            next_voice: self.next_voice_id,
        }
    }
}

/// `m` with `es` added behind what it holds at `k`.
pub open spec fn append_at<K>(
    m: Map<K, Seq<PreciseEventType>>,
    k: K,
    es: Seq<PreciseEventType>,
) -> Map<K, Seq<PreciseEventType>> {
    if es.len() == 0 {
        m
    } else if m.contains_key(k) {
        m.insert(k, m[k] + es)
    } else {
        m.insert(k, es)
    }
}

/// Adds one event behind what the table holds at `key`.
fn append_entry<K: std::hash::Hash + Eq + Copy>(
    map: &mut HashMap<K, Vec<PreciseEventType>>,
    key: K,
    entry: PreciseEventType,
)
    requires
        vstd::std_specs::hash::obeys_key_model::<K>(),
    ensures
        table(final(map)@) == append_at(table(old(map)@), key, seq![entry]),
{
    broadcast use vstd::std_specs::hash::group_hash_axioms;

    let mut list: Vec<PreciseEventType> = match map.remove(&key) {
        Some(l) => l,
        None => Vec::new(),
    };
    let ghost before = list@;
    list.push(entry);
    assert(list@ =~= before + seq![entry]);
    map.insert(key, list);
    assert(table(map@) =~= append_at(table(old(map)@), key, seq![entry]));
}

/// Samples in one bar at `sample_rate` Hz and `tempo` thousandths of a beat per
/// minute, four beats to the bar: `sample_rate * 240 / bpm`, rounded to the
/// nearest sample.
pub open spec fn samples_per_bar(sample_rate: u32, tempo: u32) -> int {
    (480000 * sample_rate + tempo) / (2 * tempo)
}

/// How a cycle is cut up: `lcm` ticks of `tick` samples each, and `rem` samples
/// left over to be shared among the `count` events.
pub struct CyclePlan {
    pub lcm: int,
    pub tick: int,
    pub rem: int,
    pub count: int,
}

impl PatternView {
    /// The length of the cycle in samples, before it is cut up.
    pub open spec fn raw_length(self, sample_rate: u32, tempo: u32) -> int {
        (self.length_bars.num * samples_per_bar(sample_rate, tempo)) / (self.length_bars.den as int)
    }

    /// How the cycle is cut up: the ticks that the least common multiple of the
    /// denominators asks for, and the samples left over.
    pub open spec fn plan(self, sample_rate: u32, tempo: u32) -> CyclePlan {
        let l = dens_lcm(self.events) as int;
        let p = self.raw_length(sample_rate, tempo);
        CyclePlan { lcm: l, tick: p / l, rem: p % l, count: self.events.len() as int }
    }

    /// The numerator of event `i` once its duration is written over `l`.
    pub open spec fn norm_num(self, l: int, i: int) -> int {
        self.events[i].dur.num * (l / self.events[i].dur.den as int)
    }

    /// The samples of event `i` without its share of the left-over.
    pub open spec fn base_samples(self, plan: CyclePlan, i: int) -> int {
        plan.tick * self.norm_num(plan.lcm, i)
    }

    /// The samples that event `i` takes.
    pub open spec fn event_samples(self, plan: CyclePlan, i: int) -> int {
        self.base_samples(plan, i) + extra_share(plan.rem, plan.count, i)
    }

    /// The samples that each event takes, in order.
    pub open spec fn sample_counts(self, plan: CyclePlan) -> Seq<int> {
        Seq::new(self.events.len(), |i: int| self.event_samples(plan, i))
    }

    /// Where event `i` starts: the samples of all events before it.
    pub open spec fn offset_of(self, plan: CyclePlan, i: int) -> int
        decreases i,
    {
        if i <= 0 {
            0
        } else {
            self.offset_of(plan, i - 1) + self.event_samples(plan, i - 1)
        }
    }

    /// How long a note of event `i` sounds: its sounded fraction of the event's
    /// samples, rounded down.
    pub open spec fn note_length(self, plan: CyclePlan, i: int, n: Note) -> int {
        (n.dur.num * self.base_samples(plan, i)) / (n.dur.den as int)
    }

    /// The entry that note `n` of event `i` leaves in the schedule.
    pub open spec fn note_entry(self, plan: CyclePlan, i: int, n: Note) -> PreciseEventType {
        note_on_entry(
            self.channel,
            n,
            self.offset_of(plan, i) as u32,
            self.note_length(plan, i, n) as usize,
        )
    }

    /// What event `i` leaves in the schedule at its offset.
    pub open spec fn entries_for(self, plan: CyclePlan, i: int) -> Seq<PreciseEventType> {
        match self.events[i].action {
            ActionView::Rest => seq![rest_entry(self.offset_of(plan, i) as u32)],
            ActionView::Note(n) => seq![self.note_entry(plan, i, n)],
            ActionView::Chord(ns) => Seq::new(ns.len(), |k: int| self.note_entry(plan, i, ns[k])),
            ActionView::Ctrl(c) => seq![ctrl_entry(self.channel, c, self.offset_of(plan, i) as u32)],
        }
    }

    /// The schedule's table once the first `i` events are placed.
    pub open spec fn placed(self, plan: CyclePlan, i: int) -> Map<usize, Seq<PreciseEventType>>
        decreases i,
    {
        if i <= 0 {
            Map::empty()
        } else {
            append_at(
                self.placed(plan, i - 1),
                self.offset_of(plan, i - 1) as usize,
                self.entries_for(plan, i - 1),
            )
        }
    }

    /// Every note of event `i` has a length that fits.
    pub open spec fn lengths_fit(self, plan: CyclePlan, i: int) -> bool {
        match self.events[i].action {
            ActionView::Note(n) => self.note_length(plan, i, n) <= usize::MAX,
            ActionView::Chord(ns) => forall|k: int|
                0 <= k < ns.len() ==> self.note_length(plan, i, #[trigger] ns[k]) <= usize::MAX,
            _ => true,
        }
    }

    /// The pattern is well formed and compiles within the machine's limits: the
    /// tempo is not zero, a cycle holds at most `u32::MAX` samples, and the
    /// numbers on the way there fit.
    pub open spec fn compilable(self, sample_rate: u32, tempo: u32) -> bool {
        &&& self.wf()
        &&& tempo > 0
        &&& if self.events.len() == 0 {
            samples_per_bar(sample_rate, tempo) <= u32::MAX
        } else {
            let plan = self.plan(sample_rate, tempo);
            &&& plan.lcm <= i64::MAX
            &&& plan.count <= i64::MAX
            &&& self.offset_of(plan, plan.count) <= u32::MAX
            &&& forall|i: int| 0 <= i < plan.count ==> #[trigger] self.lengths_fit(plan, i)
        }
    }

    /// The schedule that the pattern compiles to.
    pub open spec fn compiled(self, sample_rate: u32, tempo: u32, playing: bool) -> ScheduleView {
        if self.events.len() == 0 {
            ScheduleView {
                events: Map::empty(),
                length_samples: samples_per_bar(sample_rate, tempo) as usize,
                playing: false,
                voices: Seq::empty(),
                future: Map::empty(),
                next_voice: 0,
            }
        } else {
            let plan = self.plan(sample_rate, tempo);
            ScheduleView {
                events: self.placed(plan, plan.count),
                length_samples: self.offset_of(plan, plan.count) as usize,
                playing: playing,
                voices: Seq::empty(),
                future: Map::empty(),
                next_voice: 0,
            }
        }
    }
}

/// The placeholder that a rest leaves at `offset`.
pub open spec fn rest_entry(offset: u32) -> PreciseEventType {
    PreciseEventType::Note(
        SimpleNoteEvent {
            note_type: NoteType::Rest,
            timing: offset,
            voice_id: None,
            channel: 1,
            note: 0,
            velocity: 0,
            note_length_samples: 0,
        },
    )
}

/// A note going on at `offset`, as the schedule holds it: no voice yet.
pub open spec fn note_on_entry(channel: u8, n: Note, offset: u32, length: usize) -> PreciseEventType {
    PreciseEventType::Note(
        SimpleNoteEvent {
            note_type: NoteType::On,
            timing: offset,
            voice_id: None,
            channel: channel,
            note: n.note_num,
            velocity: n.velocity,
            note_length_samples: length,
        },
    )
}

/// A controller change at `offset`.
pub open spec fn ctrl_entry(channel: u8, c: CtrlEvent, offset: u32) -> PreciseEventType {
    PreciseEventType::Ctrl(
        SimpleCtrlEvent { timing: offset, channel: channel, cc: c.cc, value: c.value },
    )
}

/// Appending twice at one key is appending the two lists joined.
proof fn lemma_append_twice<K>(
    m: Map<K, Seq<PreciseEventType>>,
    k: K,
    a: Seq<PreciseEventType>,
    b: Seq<PreciseEventType>,
)
    ensures
        append_at(append_at(m, k, a), k, b) == append_at(m, k, a + b),
{
    if a.len() == 0 {
        assert(a + b =~= b);
    } else if b.len() == 0 {
        assert(a + b =~= a);
    } else {
        if m.contains_key(k) {
            assert((m[k] + a) + b =~= m[k] + (a + b));
        }
        assert(append_at(append_at(m, k, a), k, b) =~= append_at(m, k, a + b));
    }
}

impl PatternView {
    /// The plan of a well-formed pattern holds no negative number.
    pub proof fn lemma_plan_not_negative(self, sample_rate: u32, tempo: u32)
        requires
            self.wf(),
            tempo > 0,
        ensures
            self.plan(sample_rate, tempo).lcm >= 1,
            self.plan(sample_rate, tempo).tick >= 0,
            self.plan(sample_rate, tempo).rem >= 0,
            self.raw_length(sample_rate, tempo) >= 0,
    {
        let spb = samples_per_bar(sample_rate, tempo);
        vstd::arithmetic::div_mod::lemma_div_pos_is_pos(
            480000 * sample_rate + tempo,
            2 * tempo,
        );
        assert forall|j: int| 0 <= j < self.events.len() implies (#[trigger] self.events[j]).dur.den
            > 0 by {
            assert(event_ok(self.events[j]));
        }
        lemma_dens_lcm_positive(self.events);
        assert(self.length_bars.num * spb >= 0) by (nonlinear_arith)
            requires
                self.length_bars.num > 0,
                spb >= 0,
        ;
        vstd::arithmetic::div_mod::lemma_div_pos_is_pos(
            self.length_bars.num * spb,
            self.length_bars.den as int,
        );
        let l = dens_lcm(self.events) as int;
        vstd::arithmetic::div_mod::lemma_div_pos_is_pos(self.raw_length(sample_rate, tempo), l);
        vstd::arithmetic::div_mod::lemma_mod_bound(self.raw_length(sample_rate, tempo), l);
    }

    /// No event takes a negative number of samples.
    pub proof fn lemma_samples_not_negative(self, plan: CyclePlan, i: int)
        requires
            forall|j: int| 0 <= j < self.events.len() ==> event_ok(#[trigger] self.events[j]),
            plan.tick >= 0,
            plan.lcm >= 1,
            plan.rem >= 0,
            plan.count == self.events.len(),
            0 <= i < plan.count,
        ensures
            0 <= self.norm_num(plan.lcm, i),
            0 <= self.base_samples(plan, i) <= self.event_samples(plan, i),
    {
        let e = self.events[i];
        assert(event_ok(e));
        let f = plan.lcm / (e.dur.den as int);
        vstd::arithmetic::div_mod::lemma_div_pos_is_pos(plan.lcm, e.dur.den as int);
        vstd::arithmetic::div_mod::lemma_div_pos_is_pos(plan.rem, plan.count);
        assert(0 <= e.dur.num * f) by (nonlinear_arith)
            requires
                0 <= e.dur.num,
                0 <= f,
        ;
        assert(0 <= plan.tick * (e.dur.num * f)) by (nonlinear_arith)
            requires
                0 <= plan.tick,
                0 <= e.dur.num * f,
        ;
    }

    /// Offsets never go back: a later event starts no earlier.
    pub proof fn lemma_offsets_grow(self, plan: CyclePlan, i: int, j: int)
        requires
            forall|j: int| 0 <= j < self.events.len() ==> event_ok(#[trigger] self.events[j]),
            plan.tick >= 0,
            plan.lcm >= 1,
            plan.rem >= 0,
            plan.count == self.events.len(),
            0 <= i <= j <= plan.count,
        ensures
            0 <= self.offset_of(plan, i) <= self.offset_of(plan, j),
        decreases j,
    {
        if j > 0 {
            self.lemma_samples_not_negative(plan, j - 1);
            if i < j {
                self.lemma_offsets_grow(plan, i, j - 1);
            } else {
                self.lemma_offsets_grow(plan, i - 1, j - 1);
            }
        }
    }

    /// The numerators of the first `n` events, written over `l`, added up.
    pub open spec fn norm_total(self, l: int, n: int) -> int
        decreases n,
    {
        if n <= 0 {
            0
        } else {
            self.norm_total(l, n - 1) + self.norm_num(l, n - 1)
        }
    }

    proof fn lemma_offset_split(self, plan: CyclePlan, n: int)
        requires
            0 <= n <= plan.count,
            0 <= plan.rem,
            0 < plan.count,
        ensures
            self.offset_of(plan, n) == plan.tick * self.norm_total(plan.lcm, n) + total(
                Seq::new(n as nat, |i: int| extra_share(plan.rem, plan.count, i)),
            ),
        decreases n,
    {
        let shares = Seq::new(n as nat, |i: int| extra_share(plan.rem, plan.count, i));
        if n > 0 {
            self.lemma_offset_split(plan, n - 1);
            assert(shares.drop_last() =~= Seq::new(
                (n - 1) as nat,
                |i: int| extra_share(plan.rem, plan.count, i),
            ));
            assert(plan.tick * (self.norm_total(plan.lcm, n - 1) + self.norm_num(plan.lcm, n - 1))
                == plan.tick * self.norm_total(plan.lcm, n - 1) + plan.tick * self.norm_num(
                plan.lcm,
                n - 1,
            )) by (nonlinear_arith);
        } else {
            assert(plan.tick * 0 == 0) by (nonlinear_arith);
        }
    }

    /// Where the events' fractions add up to one, the cycle is exactly as long
    /// as the pattern's length in samples: the left-over samples are shared
    /// out, none lost and none added.
    pub proof fn lemma_cycle_length(self, sample_rate: u32, tempo: u32)
        requires
            self.wf(),
            tempo > 0,
            self.events.len() > 0,
            self.norm_total(self.plan(sample_rate, tempo).lcm, self.events.len() as int)
                == self.plan(sample_rate, tempo).lcm,
        ensures
            self.offset_of(self.plan(sample_rate, tempo), self.events.len() as int)
                == self.raw_length(sample_rate, tempo),
    {
        let plan = self.plan(sample_rate, tempo);
        self.lemma_plan_not_negative(sample_rate, tempo);
        self.lemma_offset_split(plan, plan.count);
        lemma_shares_total(plan.rem, plan.count);
        vstd::arithmetic::div_mod::lemma_fundamental_div_mod(
            self.raw_length(sample_rate, tempo),
            plan.lcm,
        );
        assert(plan.tick * plan.lcm == plan.lcm * plan.tick) by (nonlinear_arith);
    }

    /// The least common multiple of the denominators is a multiple of each.
    pub proof fn lemma_lcm_is_multiple(events: Seq<EventView>, i: int)
        requires
            dens_positive(events),
            0 <= i < events.len(),
        ensures
            dens_lcm(events) > 0,
            dens_lcm(events) as int % (events[i].dur.den as int) == 0,
        decreases events.len(),
    {
        let rest = events.drop_last();
        let a = dens_lcm(rest);
        let b = abs(events.last().dur.den as int);
        assert forall|j: int| 0 <= j < rest.len() implies (#[trigger] rest[j]).dur.den > 0 by {
            assert(rest[j] == events[j]);
        }
        lemma_dens_lcm_positive(rest);
        lemma_lcm_cofactors(a, b);
        let m = dens_lcm(events);
        if i == events.len() - 1 {
            vstd::arithmetic::div_mod::lemma_mod_multiples_basic(
                (a / crate::numbers::gcd(a, b)) as int,
                b as int,
            );
            assert(m == (a / crate::numbers::gcd(a, b)) * b) by (nonlinear_arith)
                requires
                    m == b * (a / crate::numbers::gcd(a, b)),
            ;
        } else {
            Self::lemma_lcm_is_multiple(rest, i);
            let d = events[i].dur.den as int;
            assert(rest[i] == events[i]);
            vstd::arithmetic::div_mod::lemma_fundamental_div_mod(a as int, d);
            let k = (a as int) / d;
            let f = (b / crate::numbers::gcd(a, b)) as int;
            assert(m == (k * f) * d) by (nonlinear_arith)
                requires
                    m == a * f,
                    a == d * k,
            ;
            vstd::arithmetic::div_mod::lemma_mod_multiples_basic(k * f, d);
        }
    }

    proof fn lemma_total_over(self, l: int, n: int)
        requires
            dens_positive(self.events),
            l > 0,
            0 <= n <= self.events.len(),
            forall|i: int| 0 <= i < n ==> l % (#[trigger] self.events[i]).dur.den as int == 0,
        ensures
            same_value(
                total_dur(self.events.subrange(0, n)),
                Ratio { num: self.norm_total(l, n), den: l },
            ),
        decreases n,
    {
        let prefix = self.events.subrange(0, n);
        if n > 0 {
            self.lemma_total_over(l, n - 1);
            let before = self.events.subrange(0, n - 1);
            assert(prefix.drop_last() =~= before);
            assert(prefix.last() == self.events[n - 1]);
            let e = self.events[n - 1].dur;
            let t = total_dur(before);
            let s = self.norm_total(l, n - 1);
            let f = l / (e.den as int);
            assert(l % (e.den as int) == 0);
            vstd::arithmetic::div_mod::lemma_fundamental_div_mod(l, e.den as int);
            assert forall|j: int| 0 <= j < before.len() implies (#[trigger] before[j]).dur.den
                > 0 by {
                assert(before[j] == self.events[j]);
            }
            lemma_total_den_positive(before);
            // t + e stands for s/l + e, which stands for (s + e.num * f) / l
            lemma_ratio_add_left(t, Ratio { num: s, den: l }, e.ratio());
            let mid = ratio_add(Ratio { num: s, den: l }, e.ratio());
            let goal = Ratio { num: s + e.num * f, den: l };
            assert((s * e.den) * l == s * (l * e.den)) by (nonlinear_arith);
            assert((e.num * l) * l == (e.num * f) * (l * e.den)) by (nonlinear_arith)
                requires
                    l == e.den * f,
            ;
            assert((s * e.den + e.num * l) * l == (s * e.den) * l + (e.num * l) * l)
                by (nonlinear_arith);
            assert((s + e.num * f) * (l * e.den) == s * (l * e.den) + (e.num * f) * (l * e.den))
                by (nonlinear_arith);
            assert(same_value(mid, goal));
            assert(mid.den != 0) by (nonlinear_arith)
                requires
                    mid.den == l * e.den,
                    l > 0,
                    e.den > 0,
            ;
            lemma_same_value_trans(total_dur(prefix), mid, goal);
        }
    }

    /// Where the events' durations add up to one, their numerators over the
    /// least common multiple add up to it: what `lemma_cycle_length` asks for.
    pub proof fn lemma_fractions_add_up(self)
        requires
            dens_positive(self.events),
            same_value(total_dur(self.events), Ratio { num: 1, den: 1 }),
        ensures
            self.norm_total(dens_lcm(self.events) as int, self.events.len() as int) == dens_lcm(
                self.events,
            ),
    {
        let l = dens_lcm(self.events) as int;
        lemma_dens_lcm_positive(self.events);
        assert forall|i: int| 0 <= i < self.events.len() implies l % (
        #[trigger] self.events[i]).dur.den as int == 0 by {
            Self::lemma_lcm_is_multiple(self.events, i);
        }
        self.lemma_total_over(l, self.events.len() as int);
        assert(self.events.subrange(0, self.events.len() as int) =~= self.events);
        let written = Ratio { num: self.norm_total(l, self.events.len() as int), den: l };
        lemma_total_den_positive(self.events);
        lemma_same_value_trans(written, total_dur(self.events), Ratio { num: 1, den: 1 });
    }

    /// What is placed in a schedule starts something: no entry is a note-off or
    /// a termination.
    pub proof fn lemma_placed_starts(self, plan: CyclePlan, n: int)
        requires
            0 <= n <= self.events.len(),
        ensures
            starts_only(self.placed(plan, n)),
        decreases n,
    {
        if n > 0 {
            self.lemma_placed_starts(plan, n - 1);
            let before = self.placed(plan, n - 1);
            let k = self.offset_of(plan, n - 1) as usize;
            let es = self.entries_for(plan, n - 1);
            let after = self.placed(plan, n);
            assert forall|m: int| 0 <= m < es.len() implies !is_end(#[trigger] es[m]) by {}
            assert forall|key: usize, m: int|
                after.contains_key(key) && 0 <= m < after[key].len() implies !is_end(
                #[trigger] after[key][m],
            ) by {
                if key == k && es.len() > 0 {
                    if before.contains_key(k) {
                        if m < before[k].len() {
                            assert(after[key][m] == before[k][m]);
                        } else {
                            assert(after[key][m] == es[m - before[k].len()]);
                        }
                    } else {
                        assert(after[key][m] == es[m]);
                    }
                } else {
                    assert(after[key][m] == before[key][m]);
                }
            }
        }
    }

    /// What is placed in a schedule is on the pattern's channel, or on channel
    /// 1 where it is the placeholder of a rest.
    pub proof fn lemma_placed_channels(self, plan: CyclePlan, n: int)
        requires
            1 <= self.channel <= 16,
            0 <= n <= self.events.len(),
        ensures
            table_on_channels(self.placed(plan, n)),
        decreases n,
    {
        if n > 0 {
            self.lemma_placed_channels(plan, n - 1);
            let before = self.placed(plan, n - 1);
            let k = self.offset_of(plan, n - 1) as usize;
            let es = self.entries_for(plan, n - 1);
            let after = self.placed(plan, n);
            assert forall|m: int| 0 <= m < es.len() implies 1 <= channel_of(#[trigger] es[m])
                <= 16 by {}
            assert forall|key: usize, m: int|
                after.contains_key(key) && 0 <= m < after[key].len() implies 1 <= channel_of(
                #[trigger] after[key][m],
            ) <= 16 by {
                if key == k && es.len() > 0 {
                    if before.contains_key(k) {
                        if m < before[k].len() {
                            assert(after[key][m] == before[k][m]);
                        } else {
                            assert(after[key][m] == es[m - before[k].len()]);
                        }
                    } else {
                        assert(after[key][m] == es[m]);
                    }
                } else {
                    assert(after[key][m] == before[key][m]);
                }
            }
        }
    }

    /// The cycle is as long as the samples of its events taken together.
    pub proof fn lemma_length_is_total(self, plan: CyclePlan, n: int)
        requires
            0 <= n,
        ensures
            self.offset_of(plan, n) == total(Seq::new(n as nat, |i: int| self.event_samples(plan, i))),
        decreases n,
    {
        let s = Seq::new(n as nat, |i: int| self.event_samples(plan, i));
        if n > 0 {
            self.lemma_length_is_total(plan, n - 1);
            assert(s.drop_last() =~= Seq::new((n - 1) as nat, |i: int| self.event_samples(plan, i)));
        }
    }
}

impl PrecisePattern {
    /// The note of `channel` going on at `offset`, sounding its fraction of
    /// `base` samples; `None` where that length does not fit.
    fn note_on(channel: u8, note: &Note, offset: u32, base: u128) -> (r: Option<PreciseEventType>)
        requires
            note_ok(*note),
            base <= u32::MAX,
        ensures
            r == (if (note.dur.num * base) / (note.dur.den as int) <= usize::MAX {
                Some(
                    note_on_entry(
                        channel,
                        *note,
                        offset,
                        ((note.dur.num * base) / (note.dur.den as int)) as usize,
                    ),
                )
            } else {
                None
            }),
    {
        assert(0 <= note.dur.num * base <= 0x7fff_ffff_ffff_ffff * 0xffff_ffff) by (nonlinear_arith)
            requires
                0 <= note.dur.num <= 0x7fff_ffff_ffff_ffff,
                0 <= base <= 0xffff_ffff,
        ;
        let length: u128 = ((note.dur.num as u128) * base) / (note.dur.den as u128);
        if length > usize::MAX as u128 {
            return None;
        }
        Some(
            PreciseEventType::Note(
                SimpleNoteEvent {
                    note_type: NoteType::On,
                    timing: offset,
                    voice_id: None,
                    channel: channel,
                    note: note.note_num,
                    velocity: note.velocity,
                    note_length_samples: length as usize,
                },
            ),
        )
    }

    /// Compiles `pattern` for `sample_rate` Hz and `tempo` thousandths of a beat
    /// per minute, or gives `None` where the pattern is not well formed or does
    /// not compile within the machine's limits.
    #[verifier::rlimit(60)]
    pub fn compile(pattern: &Pattern, sample_rate: u32, tempo: u32, playing: bool) -> (r: Option<
        PrecisePattern,
    >)
        ensures
            r is Some <==> pattern.deep_view().compilable(sample_rate, tempo),
            r is Some ==> r->0@ == pattern.deep_view().compiled(sample_rate, tempo, playing),
            r is Some ==> starts_only(r->0@.events) && tidy(r->0@.playback()) && ends_only(
                r->0@.future,
            ) && r->0@.on_channels(),
    {
        broadcast use vstd::std_specs::hash::group_hash_axioms;

        let ghost pv = pattern.deep_view();
        proof {
            let plan = pv.plan(sample_rate, tempo);
            pv.lemma_placed_starts(plan, pv.events.len() as int);
            if pv.wf() {
                pv.lemma_placed_channels(plan, pv.events.len() as int);
            }
        }
        if tempo == 0 || !pattern.is_well_formed() {
            return None;
        }
        let spb: u64 = (480000u64 * (sample_rate as u64) + (tempo as u64)) / (2 * (tempo as u64));
        assert(spb == samples_per_bar(sample_rate, tempo));
        let n = pattern.events.len();
        if n == 0 {
            if spb > 0xffff_ffff {
                return None;
            }
            let r = PrecisePattern {
                events: HashMap::new(),
                length_samples: spb as usize,
                playing: false,
                notes_playing: Vec::new(),
                future_events: HashMap::new(),
                next_voice_id: 0,
            };
            assert(r@.events =~= Map::empty());
            assert(r@.future =~= Map::empty());
            return Some(r);
        }
        assert forall|j: int| 0 <= j < pattern.events.len() implies (#[trigger] pattern.events@[j]).dur.den
            > 0 by {
            assert(event_ok(pv.events[j]));
        }
        let l: i64 = match pattern.events_lcm() {
            Some(l) => l,
            None => {
                return None;
            },
        };
        if n as u128 > 0x7fff_ffff_ffff_ffff {
            return None;
        }
        let ghost plan = pv.plan(sample_rate, tempo);
        assert(0 <= pattern.length_bars.num * spb <= 0x7fff_ffff_ffff_ffff * 0xffff_ffff_ffff_ffff)
            by (nonlinear_arith)
            requires
                0 <= pattern.length_bars.num <= 0x7fff_ffff_ffff_ffff,
                0 <= spb <= 0xffff_ffff_ffff_ffff,
        ;
        let raw: u128 = ((pattern.length_bars.num as u128) * (spb as u128)) / (
        pattern.length_bars.den as u128);
        assert(raw == pv.raw_length(sample_rate, tempo));
        let tick: u128 = raw / (l as u128);
        let rem: u128 = raw % (l as u128);
        assert(tick == plan.tick && rem == plan.rem && l == plan.lcm && n == plan.count);
        let extras = compute_extra_samples(rem as i64, n);
        let mut events_map: HashMap<usize, Vec<PreciseEventType>> = HashMap::new();
        let mut offset: u32 = 0;
        let mut idx: usize = 0;
        assert(table(events_map@) =~= pv.placed(plan, 0));
        while idx < n
            invariant
                idx <= n,
                n == pattern.events.len(),
                pv == pattern.deep_view(),
                pv.wf(),
                tempo > 0,
                plan == pv.plan(sample_rate, tempo),
                tick == plan.tick,
                rem == plan.rem,
                l == plan.lcm,
                l >= 1,
                n == plan.count,
                n <= i64::MAX,
                extras@.len() == n,
                forall|i: int| 0 <= i < n ==> extras@[i] == extra_share(rem as int, n as int, i),
                offset == pv.offset_of(plan, idx as int),
                table(events_map@) == pv.placed(plan, idx as int),
                forall|i: int| 0 <= i < idx ==> #[trigger] pv.lengths_fit(plan, i),
            decreases n - idx,
        {
            let ev = &pattern.events[idx];
            let ghost i = idx as int;
            proof {
                assert(event_ok(pv.events[i]));
                assert(pv.events[i].dur == ev.dur);
                pv.lemma_samples_not_negative(plan, i);
                pv.lemma_offsets_grow(plan, i + 1, n as int);
                vstd::arithmetic::div_mod::lemma_div_pos_is_pos(l as int, ev.dur.den as int);
                vstd::arithmetic::div_mod::lemma_div_is_ordered_by_denominator(
                    l as int,
                    1,
                    ev.dur.den as int,
                );
                vstd::arithmetic::div_mod::lemma_div_basics(l as int);
            }
            let factor: u128 = (l as u128) / (ev.dur.den as u128);
            assert(0 <= ev.dur.num * factor <= 0x7fff_ffff_ffff_ffff * 0x7fff_ffff_ffff_ffff)
                by (nonlinear_arith)
                requires
                    0 <= ev.dur.num <= 0x7fff_ffff_ffff_ffff,
                    0 <= factor <= 0x7fff_ffff_ffff_ffff,
            ;
            let nn: u128 = (ev.dur.num as u128) * factor;
            assert(nn == pv.norm_num(plan.lcm, i));
            let base: u128 = if tick == 0 || nn == 0 {
                assert(tick * nn == 0) by (nonlinear_arith)
                    requires
                        tick == 0 || nn == 0,
                ;
                0
            } else if tick > 0xffff_ffff || nn > 0xffff_ffff {
                assert(tick * nn > 0xffff_ffff) by (nonlinear_arith)
                    requires
                        tick >= 1,
                        nn >= 1,
                        tick > 0xffff_ffff || nn > 0xffff_ffff,
                ;
                return None;
            } else {
                assert(tick * nn <= 0xffff_ffff * 0xffff_ffff) by (nonlinear_arith)
                    requires
                        0 <= tick <= 0xffff_ffff,
                        0 <= nn <= 0xffff_ffff,
                ;
                tick * nn
            };
            assert(base == pv.base_samples(plan, i));
            if base > 0xffff_ffff {
                return None;
            }
            let ghost before = table(events_map@);
            match &ev.action {
                EventType::Rest => {
                    append_entry(
                        &mut events_map,
                        offset as usize,
                        PreciseEventType::Note(
                            SimpleNoteEvent {
                                note_type: NoteType::Rest,
                                timing: offset,
                                voice_id: None,
                                channel: 1,
                                note: 0,
                                velocity: 0,
                                note_length_samples: 0,
                            },
                        ),
                    );
                    assert(pv.events[i].action is Rest);
                },
                EventType::NoteEvent(note) => {
                    assert(pv.events[i].action == ActionView::Note(*note));
                    match Self::note_on(pattern.channel, note, offset, base) {
                        Some(entry) => {
                            append_entry(&mut events_map, offset as usize, entry);
                        },
                        None => {
                            assert(!pv.lengths_fit(plan, i));
                            return None;
                        },
                    }
                },
                EventType::MultiNoteEvent(notes) => {
                    assert(pv.events[i].action == ActionView::Chord(notes@));
                    let mut k: usize = 0;
                    assert(Seq::new(0, |j: int| pv.note_entry(plan, i, notes@[j])) =~= Seq::empty());
                    while k < notes.len()
                        invariant
                            k <= notes.len(),
                            0 <= i < plan.count,
                            plan.count == pv.events.len(),
                            pv == pattern.deep_view(),
                            plan == pv.plan(sample_rate, tempo),
                            pv.events[i].action == ActionView::Chord(notes@),
                            event_ok(pv.events[i]),
                            base == pv.base_samples(plan, i),
                            base <= u32::MAX,
                            offset == pv.offset_of(plan, i),
                            pattern.channel == pv.channel,
                            table(events_map@) == append_at(
                                before,
                                offset as usize,
                                Seq::new(k as nat, |j: int| pv.note_entry(plan, i, notes@[j])),
                            ),
                            forall|j: int|
                                0 <= j < k ==> pv.note_length(plan, i, #[trigger] notes@[j])
                                    <= usize::MAX,
                        decreases notes.len() - k,
                    {
                        let ghost a = pv.events[i].action;
                        assert(a->Chord_0 == notes@);
                        assert(note_ok(a->Chord_0[k as int]));
                        match Self::note_on(pattern.channel, &notes[k], offset, base) {
                            Some(entry) => {
                                let ghost sofar = Seq::new(
                                    k as nat,
                                    |j: int| pv.note_entry(plan, i, notes@[j]),
                                );
                                append_entry(&mut events_map, offset as usize, entry);
                                proof {
                                    lemma_append_twice(before, offset as usize, sofar, seq![entry]);
                                    assert(sofar + seq![entry] =~= Seq::new(
                                        (k + 1) as nat,
                                        |j: int| pv.note_entry(plan, i, notes@[j]),
                                    ));
                                }
                            },
                            None => {
                                assert(pv.note_length(plan, i, a->Chord_0[k as int]) > usize::MAX);
                                assert(!pv.lengths_fit(plan, i));
                                return None;
                            },
                        }
                        k += 1;
                    }
                    assert(pv.lengths_fit(plan, i));
                },
                EventType::Ctrl(c) => {
                    assert(pv.events[i].action == ActionView::Ctrl(*c));
                    append_entry(
                        &mut events_map,
                        offset as usize,
                        PreciseEventType::Ctrl(
                            SimpleCtrlEvent {
                                timing: offset,
                                channel: pattern.channel,
                                cc: c.cc,
                                value: c.value,
                            },
                        ),
                    );
                },
            }
            assert(table(events_map@) == pv.placed(plan, i + 1));
            assert(pv.lengths_fit(plan, i));
            let next: u128 = (offset as u128) + base + (extras[idx] as u128);
            assert(next == pv.offset_of(plan, i + 1));
            if next > 0xffff_ffff {
                return None;
            }
            offset = next as u32;
            idx += 1;
        }
        let r = PrecisePattern {
            events: events_map,
            length_samples: offset as usize,
            playing: playing,
            notes_playing: Vec::new(),
            future_events: HashMap::new(),
            next_voice_id: 0,
        };
        assert(r@.future =~= Map::empty());
        Some(r)
    }

    /// Compiles `pattern` for `sample_rate` Hz and `tempo` thousandths of a beat
    /// per minute. An empty pattern compiles to an empty schedule, one bar long,
    /// that does not play. The cycle of any other is as long as the samples of
    /// its events taken together.
    pub fn from(pattern: &Pattern, sample_rate: u32, tempo: u32, playing: bool) -> (r:
        PrecisePattern)
        requires
            pattern.deep_view().compilable(sample_rate, tempo),
        ensures
            r@ == pattern.deep_view().compiled(sample_rate, tempo, playing),
            pattern.events.len() > 0 ==> r.length_samples == total(
                pattern.deep_view().sample_counts(pattern.deep_view().plan(sample_rate, tempo)),
            ),
            starts_only(r@.events),
            tidy(r@.playback()),
            ends_only(r@.future),
            r@.on_channels(),
    {
        let r = Self::compile(pattern, sample_rate, tempo, playing).unwrap();
        proof {
            let pv = pattern.deep_view();
            let plan = pv.plan(sample_rate, tempo);
            pv.lemma_length_is_total(plan, pattern.events.len() as int);
            assert(pv.events.len() == pattern.events.len());
            assert(pv.sample_counts(plan) =~= Seq::new(
                pattern.events.len() as nat,
                |i: int| pv.event_samples(plan, i),
            ));
            if pattern.events.len() > 0 {
                assert(plan.count == pattern.events.len());
                assert(pv.compilable(sample_rate, tempo));
                assert(pv.offset_of(plan, plan.count) <= u32::MAX);
                pv.lemma_plan_not_negative(sample_rate, tempo);
                pv.lemma_offsets_grow(plan, 0, plan.count);
                assert(r@.length_samples == pv.offset_of(plan, plan.count) as usize);
            }
        }
        r
    }
}

/// Takes away the voices that `voice_matches` picks.
fn release(voices: &mut Vec<ActiveVoice>, channel: u8, note: u8, only: Option<VoiceID>)
    ensures
        final(voices)@ == dropped(old(voices)@, channel, note, only),
{
    let mut kept: Vec<ActiveVoice> = Vec::new();
    let mut i: usize = 0;
    assert(voices@.subrange(0, 0) =~= Seq::empty());
    while i < voices.len()
        invariant
            i <= voices.len(),
            kept@ == dropped(voices@.subrange(0, i as int), channel, note, only),
        decreases voices.len() - i,
    {
        let a = voices[i];
        let same = match only {
            Some(v) => a.voice_id == v,
            None => true,
        };
        proof {
            let next = voices@.subrange(0, i + 1);
            assert(next.drop_last() =~= voices@.subrange(0, i as int));
            assert(next.last() == a);
        }
        if !(a.channel == channel && a.note == note && same) {
            kept.push(a);
        }
        i += 1;
    }
    assert(voices@.subrange(0, i as int) =~= voices@);
    *voices = kept;
}

/// The voice that plays `note` on `channel`, if one does.
fn find_voice(voices: &Vec<ActiveVoice>, channel: u8, note: u8) -> (r: Option<VoiceID>)
    ensures
        r == voice_of(voices@, channel, note),
{
    let mut found: Option<VoiceID> = None;
    let mut i: usize = 0;
    assert(voices@.subrange(0, 0) =~= Seq::empty());
    while i < voices.len()
        invariant
            i <= voices.len(),
            found == voice_of(voices@.subrange(0, i as int), channel, note),
        decreases voices.len() - i,
    {
        let a = voices[i];
        proof {
            let next = voices@.subrange(0, i + 1);
            assert(next.drop_last() =~= voices@.subrange(0, i as int));
            assert(next.last() == a);
        }
        if a.channel == channel && a.note == note {
            found = Some(a.voice_id);
        }
        i += 1;
    }
    assert(voices@.subrange(0, i as int) =~= voices@);
    found
}

/// `e` with its timing set to `t`.
fn retime(e: PreciseEventType, t: u32) -> (r: PreciseEventType)
    ensures
        r == retimed(e, t),
{
    match e {
        PreciseEventType::Note(n) => PreciseEventType::Note(
            SimpleNoteEvent {
                note_type: n.note_type,
                timing: t,
                voice_id: n.voice_id,
                channel: n.channel,
                note: n.note,
                velocity: n.velocity,
                note_length_samples: n.note_length_samples,
            },
        ),
        PreciseEventType::Ctrl(c) => PreciseEventType::Ctrl(
            SimpleCtrlEvent { timing: t, channel: c.channel, cc: c.cc, value: c.value },
        ),
        PreciseEventType::VoiceTerminated(v) => PreciseEventType::VoiceTerminated(
            VoiceTerminatedEvent {
                timing: t,
                channel: v.channel,
                voice_id: v.voice_id,
                note: v.note,
            },
        ),
    }
}

/// The pieces that playing changes, put together.
pub open spec fn progress(
    voices: Vec<ActiveVoice>,
    future: HashMap<i128, Vec<PreciseEventType>>,
    next_voice: VoiceID,
    out: Vec<PreciseEventType>,
) -> Playback {
    Playback { voices: voices@, future: table(future@), next_voice: next_voice, out: out@ }
}

/// Puts the end of voice `voice` down for song position `at`.
fn schedule_note_off(
    future: &mut HashMap<i128, Vec<PreciseEventType>>,
    channel: u8,
    note: u8,
    voice: VoiceID,
    at: i128,
)
    ensures
        table(final(future)@) == append_at(table(old(future)@), at, off_pair(channel, note, voice)),
{
    let off = PreciseEventType::Note(
        SimpleNoteEvent {
            note_type: NoteType::Off,
            timing: 0,
            voice_id: Some(voice),
            channel: channel,
            note: note,
            velocity: 0,
            note_length_samples: 0,
        },
    );
    let gone = PreciseEventType::VoiceTerminated(
        VoiceTerminatedEvent { timing: 0, channel: channel, voice_id: Some(voice), note: note },
    );
    broadcast use vstd::std_specs::hash::group_hash_axioms;

    let ghost before = table(future@);
    append_entry(future, at, off);
    append_entry(future, at, gone);
    proof {
        lemma_append_twice(before, at, seq![off], seq![gone]);
        assert(seq![off] + seq![gone] =~= off_pair(channel, note, voice));
    }
}

/// Plays one entry of the schedule; see `play_entry`.
fn play_one(
    voices: &mut Vec<ActiveVoice>,
    future: &mut HashMap<i128, Vec<PreciseEventType>>,
    next_voice: &mut VoiceID,
    out: &mut Vec<PreciseEventType>,
    e: PreciseEventType,
    key: i128,
    t: u32,
)
    requires
        -0x1_0000_0000_0000_0000 <= key <= 0x1_0000_0000_0000_0000,
    ensures
        progress(*final(voices), *final(future), *final(next_voice), *final(out)) == play_entry(
            progress(*old(voices), *old(future), *old(next_voice), *old(out)),
            e,
            key,
            t,
        ),
{
    match e {
        PreciseEventType::Note(n) => match n.note_type {
            NoteType::Rest => {},
            NoteType::On => {
                let v = *next_voice;
                release(voices, n.channel, n.note, None);
                voices.push(ActiveVoice { channel: n.channel, note: n.note, voice_id: v });
                schedule_note_off(
                    future,
                    n.channel,
                    n.note,
                    v,
                    key + (n.note_length_samples as i128),
                );
                *next_voice = if v == i32::MAX { 0 } else { v + 1 };
                out.push(
                    PreciseEventType::Note(
                        SimpleNoteEvent {
                            note_type: n.note_type,
                            timing: t,
                            voice_id: Some(v),
                            channel: n.channel,
                            note: n.note,
                            velocity: n.velocity,
                            note_length_samples: n.note_length_samples,
                        },
                    ),
                );
            },
            NoteType::Off => {
                match find_voice(voices, n.channel, n.note) {
                    Some(v) => {
                        release(voices, n.channel, n.note, None);
                        out.push(
                            PreciseEventType::Note(
                                SimpleNoteEvent {
                                    note_type: n.note_type,
                                    timing: t,
                                    voice_id: Some(v),
                                    channel: n.channel,
                                    note: n.note,
                                    velocity: n.velocity,
                                    note_length_samples: n.note_length_samples,
                                },
                            ),
                        );
                        out.push(
                            PreciseEventType::VoiceTerminated(
                                VoiceTerminatedEvent {
                                    timing: t,
                                    channel: n.channel,
                                    voice_id: Some(v),
                                    note: n.note,
                                },
                            ),
                        );
                    },
                    None => {},
                }
            },
        },
        _ => {
            out.push(retime(e, t));
        },
    }
}

/// Plays the entries of one offset, in their order; see `play_entries`.
fn play_list(
    entries: &Vec<PreciseEventType>,
    voices: &mut Vec<ActiveVoice>,
    future: &mut HashMap<i128, Vec<PreciseEventType>>,
    next_voice: &mut VoiceID,
    out: &mut Vec<PreciseEventType>,
    key: i128,
    t: u32,
)
    requires
        -0x1_0000_0000_0000_0000 <= key <= 0x1_0000_0000_0000_0000,
    ensures
        progress(*final(voices), *final(future), *final(next_voice), *final(out)) == play_entries(
            progress(*old(voices), *old(future), *old(next_voice), *old(out)),
            entries@,
            key,
            t,
        ),
{
    let ghost start = progress(*voices, *future, *next_voice, *out);
    let mut i: usize = 0;
    assert(entries@.subrange(0, 0) =~= Seq::empty());
    while i < entries.len()
        invariant
            i <= entries.len(),
            -0x1_0000_0000_0000_0000 <= key <= 0x1_0000_0000_0000_0000,
            progress(*voices, *future, *next_voice, *out) == play_entries(
                start,
                entries@.subrange(0, i as int),
                key,
                t,
            ),
        decreases entries.len() - i,
    {
        proof {
            let next = entries@.subrange(0, i + 1);
            assert(next.drop_last() =~= entries@.subrange(0, i as int));
            assert(next.last() == entries@[i as int]);
        }
        play_one(voices, future, next_voice, out, entries[i], key, t);
        i += 1;
    }
    assert(entries@.subrange(0, i as int) =~= entries@);
}

/// Gives out what is due at song position `key`; see `drain`.
fn drain_due(
    voices: &mut Vec<ActiveVoice>,
    future: &mut HashMap<i128, Vec<PreciseEventType>>,
    out: &mut Vec<PreciseEventType>,
    key: i128,
    t: u32,
    Ghost(next_voice): Ghost<VoiceID>,
)
    ensures
        progress(*final(voices), *final(future), next_voice, *final(out)) == drain(
            progress(*old(voices), *old(future), next_voice, *old(out)),
            key,
            t,
        ),
{
    broadcast use vstd::std_specs::hash::group_hash_axioms;

    let ghost before = table(future@);
    match future.remove(&key) {
        Some(due) => {
            assert(table(future@) =~= before.remove(key));
            assert(before.contains_key(key) && before[key] == due@);
            let ghost out0 = out@;
            let ghost voices0 = voices@;
            let mut i: usize = 0;
            assert(due@.subrange(0, 0) =~= Seq::empty());
            assert(out0 + due@.subrange(0, 0).map_values(|e: PreciseEventType| retimed(e, t))
                =~= out0);
            while i < due.len()
                invariant
                    i <= due.len(),
                    voices@ == released(voices0, due@.subrange(0, i as int)),
                    out@ == out0 + due@.subrange(0, i as int).map_values(
                        |e: PreciseEventType| retimed(e, t),
                    ),
                decreases due.len() - i,
            {
                let e = due[i];
                proof {
                    let next = due@.subrange(0, i + 1);
                    assert(next.drop_last() =~= due@.subrange(0, i as int));
                    assert(next.last() == e);
                    assert(out0 + next.map_values(|e: PreciseEventType| retimed(e, t)) =~= (out0
                        + due@.subrange(0, i as int).map_values(
                        |e: PreciseEventType| retimed(e, t),
                    )).push(retimed(e, t)));
                }
                out.push(retime(e, t));
                match e {
                    PreciseEventType::Note(n) => {
                        match n.note_type {
                            NoteType::Off => {
                                release(voices, n.channel, n.note, n.voice_id);
                            },
                            _ => {},
                        }
                    },
                    _ => {},
                }
                i += 1;
            }
            assert(due@.subrange(0, i as int) =~= due@);
        },
        None => {
            assert(table(future@) =~= before);
        },
    }
}

/// `pos` modulo `len`, never negative.
fn wrap_position(pos: i64, len: usize) -> (r: usize)
    requires
        len > 0,
    ensures
        r == pos as int % len as int,
        r < len,
{
    if pos >= 0 {
        let r = (pos as u128) % (len as u128);
        r as usize
    } else {
        let a: u128 = (-(pos as i128)) as u128;
        let m: u128 = a % (len as u128);
        proof {
            let q = a as int / len as int;
            vstd::arithmetic::div_mod::lemma_fundamental_div_mod(a as int, len as int);
            if m == 0 {
                assert(pos == (-q) * len + 0) by (nonlinear_arith)
                    requires
                        a == len * q + m,
                        m == 0,
                        pos == -a,
                ;
                vstd::arithmetic::div_mod::lemma_fundamental_div_mod_converse(
                    pos as int,
                    len as int,
                    -q,
                    0,
                );
            } else {
                assert(pos == (-q - 1) * len + (len - m)) by (nonlinear_arith)
                    requires
                        a == len * q + m,
                        pos == -a,
                ;
                vstd::arithmetic::div_mod::lemma_fundamental_div_mod_converse(
                    pos as int,
                    len as int,
                    -q - 1,
                    len - m,
                );
            }
        }
        if m == 0 {
            0
        } else {
            ((len as u128) - m) as usize
        }
    }
}

/// The offset after `off` within a cycle of `len` samples.
proof fn lemma_next_offset(x: int, len: int)
    requires
        len > 0,
    ensures
        (x + 1) % len == (if x % len + 1 == len {
            0
        } else {
            x % len + 1
        }),
{
    let q = x / len;
    let r = x % len;
    vstd::arithmetic::div_mod::lemma_fundamental_div_mod(x, len);
    vstd::arithmetic::div_mod::lemma_mod_bound(x, len);
    if r + 1 == len {
        assert(x + 1 == (q + 1) * len + 0) by (nonlinear_arith)
            requires
                x == len * q + r,
                r + 1 == len,
        ;
        vstd::arithmetic::div_mod::lemma_fundamental_div_mod_converse(x + 1, len, q + 1, 0);
    } else {
        assert(x + 1 == q * len + (r + 1)) by (nonlinear_arith)
            requires
                x == len * q + r,
        ;
        vstd::arithmetic::div_mod::lemma_fundamental_div_mod_converse(x + 1, len, q, r + 1);
    }
}

impl PrecisePattern {
    /// Lets the pattern play.
    pub fn start(&mut self)
        ensures
            final(self)@ == (ScheduleView { playing: true, ..old(self)@ }),
    {
        self.playing = true;
    }

    /// Stops the pattern and forgets the note-offs that were still to come. The
    /// voices that sound stay, for `get_notes_playing` to end them.
    pub fn stop(&mut self)
        ensures
            final(self)@ == (ScheduleView { playing: false, future: Map::empty(), ..old(self)@ }),
    {
        self.playing = false;
        self.future_events.clear();
        assert(table(self.future_events@) =~= Map::empty());
    }

    /// The events of the buffer of `buf_size` samples that starts at song
    /// position `pos_samples`, in the order of their timing, each timed within
    /// the buffer. Nothing while the pattern does not play or is empty.
    ///
    /// Sample by sample: what is due goes out, then what the pattern holds at
    /// that offset is played, so that the end of a voice comes before the note
    /// that takes its place. What was put down for a sample of this buffer is
    /// given out in it, on the channel that it was put down for. Every note
    /// that goes on has its note-off and its
    /// termination given out behind it or put down for the position where its
    /// length runs out; and as long as the voice count does not start again, no
    /// voice is started twice or ended twice.
    pub fn get_events(&mut self, pos_samples: i64, buf_size: usize) -> (r: Vec<PreciseEventType>)
        requires
            buf_size <= u32::MAX,
        ensures
            !old(self).playing || old(self).length_samples == 0 ==> r@.len() == 0 && final(self)@
                == old(self)@,
            old(self).playing && old(self).length_samples > 0 ==> {
                let end = old(self)@.run(
                    old(self)@.playback(),
                    pos_samples,
                    buf_size as int,
                    buf_size,
                );
                &&& r@ == end.out
                &&& final(self)@ == old(self)@.with(end)
                &&& delivered(old(self)@.playback(), end, pos_samples, buf_size as int)
                &&& ends_only(old(self)@.future) ==> all_settled(end, pos_samples)
                &&& ends_only(old(self)@.future) && starts_only(old(self)@.events) && tidy(
                    old(self)@.playback(),
                ) && old(self)@.calm(old(self)@.playback(), pos_samples, buf_size as int, buf_size)
                    ==> tidy(end)
            },
            ends_only(old(self)@.future) ==> ends_only(final(self)@.future),
            old(self)@.on_channels() ==> final(self)@.on_channels() && on_channels(r@),
            timed_before(r@, buf_size as int),
            in_order(r@),
    {
        broadcast use vstd::std_specs::hash::group_hash_axioms;

        let mut out: Vec<PreciseEventType> = Vec::new();
        if self.length_samples == 0 || !self.playing {
            return out;
        }
        let ghost sv = self@;
        let len = self.length_samples;
        let window: usize = buf_size % len;
        let mut offset: usize = wrap_position(pos_samples, len);
        let mut t: u32 = 0;
        assert(progress(self.notes_playing, self.future_events, self.next_voice_id, out)
            == sv.run(sv.playback(), pos_samples, 0, buf_size));
        while (t as usize) < buf_size
            invariant
                t <= buf_size <= u32::MAX,
                len == sv.length_samples,
                len > 0,
                window == sv.window(buf_size),
                offset == sv.offset_at(pos_samples, t as int),
                offset < len,
                self@ == sv.with(progress(self.notes_playing, self.future_events, self.next_voice_id, out)),
                sv.events == table(self.events@),
                progress(self.notes_playing, self.future_events, self.next_voice_id, out) == sv.run(
                    sv.playback(),
                    pos_samples,
                    t as int,
                    buf_size,
                ),
            decreases buf_size - t,
        {
            let key: i128 = (pos_samples as i128) + (t as i128);
            drain_due(
                &mut self.notes_playing,
                &mut self.future_events,
                &mut out,
                key,
                t,
                Ghost(self.next_voice_id),
            );
            if (t as usize) < window {
                match self.events.get(&offset) {
                    Some(entries) => {
                        assert(sv.events.contains_key(offset) && sv.events[offset] == entries@);
                        play_list(
                            entries,
                            &mut self.notes_playing,
                            &mut self.future_events,
                            &mut self.next_voice_id,
                            &mut out,
                            key,
                            t,
                        );
                    },
                    None => {
                        assert(!sv.events.contains_key(offset));
                    },
                }
            }
            drain_due(
                &mut self.notes_playing,
                &mut self.future_events,
                &mut out,
                key,
                t,
                Ghost(self.next_voice_id),
            );
            proof {
                lemma_next_offset(pos_samples + t, len as int);
            }
            offset = if offset + 1 == len { 0 } else { offset + 1 };
            t += 1;
        }
        proof {
            sv.lemma_run_order(sv.playback(), pos_samples, buf_size as int, buf_size);
            if sv.on_channels() {
                sv.lemma_run_channels(sv.playback(), pos_samples, buf_size as int, buf_size);
            }
            sv.lemma_run_delivers(sv.playback(), pos_samples, buf_size as int, buf_size);
            if ends_only(sv.future) {
                sv.lemma_run_settles(sv.playback(), pos_samples, buf_size as int, buf_size);
                if starts_only(sv.events) && tidy(sv.playback()) && sv.calm(
                    sv.playback(),
                    pos_samples,
                    buf_size as int,
                    buf_size,
                ) {
                    sv.lemma_run_tidy(sv.playback(), pos_samples, buf_size as int, buf_size);
                }
            }
        }
        out
    }

    /// A note-off, timed zero, for every voice that sounds, oldest first; the
    /// voices are then forgotten.
    pub fn get_notes_playing(&mut self) -> (r: Vec<SimpleNoteEvent>)
        ensures
            r@ == old(self)@.voices.map_values(|a: ActiveVoice| note_off_now(a)),
            final(self)@ == (ScheduleView { voices: Seq::empty(), ..old(self)@ }),
            old(self)@.on_channels() ==> final(self)@.on_channels() && forall|i: int|
                0 <= i < r@.len() ==> 1 <= (#[trigger] r@[i]).channel <= 16,
    {
        let mut offs: Vec<SimpleNoteEvent> = Vec::new();
        let mut i: usize = 0;
        while i < self.notes_playing.len()
            invariant
                i <= self.notes_playing.len(),
                *self == *old(self),
                offs@ == self.notes_playing@.subrange(0, i as int).map_values(
                    |a: ActiveVoice| note_off_now(a),
                ),
            decreases self.notes_playing.len() - i,
        {
            let a = self.notes_playing[i];
            offs.push(
                SimpleNoteEvent {
                    note_type: NoteType::Off,
                    timing: 0,
                    voice_id: Some(a.voice_id),
                    channel: a.channel,
                    note: a.note,
                    velocity: 0,
                    note_length_samples: 0,
                },
            );
            assert(offs@ =~= self.notes_playing@.subrange(0, i + 1).map_values(
                |a: ActiveVoice| note_off_now(a),
            ));
            i += 1;
        }
        assert(self.notes_playing@.subrange(0, i as int) =~= self.notes_playing@);
        self.notes_playing = Vec::new();
        offs
    }
}

/// The note-off that ends voice `a` at once.
pub open spec fn note_off_now(a: ActiveVoice) -> SimpleNoteEvent {
    SimpleNoteEvent {
        note_type: NoteType::Off,
        timing: 0,
        voice_id: Some(a.voice_id),
        channel: a.channel,
        note: a.note,
        velocity: 0,
        note_length_samples: 0,
    }
}

} // verus!
