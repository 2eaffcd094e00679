//! Patterns: what is played, as events that each take a fraction of the cycle.
use vstd::prelude::*;
use crate::dur::{ratio_add, Dur, Ratio};
use crate::numbers::{abs, gcd, lcm, lcm_wide, lemma_lcm_cofactors};
use crate::lex::{parse_note, parse_note_spec};

verus! {

/// One note. `velocity` counts hundredths of full scale, 0 to 100. `dur` is the
/// sounded fraction: how much of the enclosing event's slot the note sounds.
#[derive(Clone, Copy, Debug, PartialEq, Eq, Structural)]
pub struct Note {
    pub note_num: u8,
    pub dur: Dur,
    pub velocity: u8,
}

/// A controller change. `value` counts hundredths of full scale, 0 to 100.
#[derive(Clone, Copy, Debug, PartialEq, Eq, Structural)]
pub struct CtrlEvent {
    pub cc: u8,
    pub value: u8,
}

/// What an event does: nothing, one note, several notes at once, or a
/// controller change.
#[derive(Clone, Debug, PartialEq, Eq)]
pub enum EventType {
    Rest,
    NoteEvent(Note),
    MultiNoteEvent(Vec<Note>),
    Ctrl(CtrlEvent),
}

/// What an `EventType` holds, as a mathematical value.
pub enum ActionView {
    Rest,
    Note(Note),
    Chord(Seq<Note>),
    Ctrl(CtrlEvent),
}

/// An action and the fraction of the pattern's length that it takes.
#[derive(Clone, Debug, PartialEq, Eq)]
pub struct Event {
    pub action: EventType,
    pub dur: Dur,
}

/// An event as a mathematical value.
pub struct EventView {
    pub action: ActionView,
    pub dur: Dur,
}

/// Events that are played in a cycle of `length_bars` bars on a channel, 1 to
/// 16. Each event's duration is its fraction of the cycle.
#[derive(Clone, Debug, PartialEq, Eq)]
pub struct Pattern {
    pub channel: u8,
    pub events: Vec<Event>,
    pub length_bars: Dur,
}

/// A pattern as a mathematical value.
pub struct PatternView {
    pub channel: u8,
    pub events: Seq<EventView>,
    pub length_bars: Dur,
}

/// A pattern with the name under which the coordinator keeps it.
#[derive(Clone, Debug, PartialEq, Eq)]
pub struct NamedPattern {
    pub channel: u8,
    pub events: Vec<Event>,
    pub length_bars: Dur,
    pub name: String,
}

/// A named pattern as a mathematical value.
pub struct NamedPatternView {
    pub channel: u8,
    pub events: Seq<EventView>,
    pub length_bars: Dur,
    pub name: Seq<char>,
}

impl DeepView for Note {
    type V = Note;

    open spec fn deep_view(&self) -> Note {
        *self
    }
}

impl DeepView for EventType {
    type V = ActionView;

    open spec fn deep_view(&self) -> ActionView {
        match *self {
            EventType::Rest => ActionView::Rest,
            EventType::NoteEvent(n) => ActionView::Note(n),
            EventType::MultiNoteEvent(ns) => ActionView::Chord(ns@),
            EventType::Ctrl(c) => ActionView::Ctrl(c),
        }
    }
}

impl DeepView for Event {
    type V = EventView;

    open spec fn deep_view(&self) -> EventView {
        EventView { action: self.action.deep_view(), dur: self.dur }
    }
}

impl DeepView for Pattern {
    type V = PatternView;

    open spec fn deep_view(&self) -> PatternView {
        PatternView {
            channel: self.channel,
            events: self.events.deep_view(),
            length_bars: self.length_bars,
        }
    }
}

impl DeepView for NamedPattern {
    type V = NamedPatternView;

    open spec fn deep_view(&self) -> NamedPatternView {
        NamedPatternView {
            channel: self.channel,
            events: self.events.deep_view(),
            length_bars: self.length_bars,
            name: self.name@,
        }
    }
}

/// The durations of the events added up, as a fraction that is not reduced.
pub open spec fn total_dur(events: Seq<EventView>) -> Ratio
    decreases events.len(),
{
    if events.len() == 0 {
        Ratio { num: 0, den: 1 }
    } else {
        ratio_add(total_dur(events.drop_last()), events.last().dur.ratio())
    }
}

/// Every duration among the events has a positive denominator.
pub open spec fn dens_positive(events: Seq<EventView>) -> bool {
    forall|i: int| 0 <= i < events.len() ==> (#[trigger] events[i]).dur.den > 0
}

/// The total of durations with positive denominators has a positive
/// denominator.
pub proof fn lemma_total_den_positive(events: Seq<EventView>)
    requires
        dens_positive(events),
    ensures
        total_dur(events).den > 0,
    decreases events.len(),
{
    if events.len() > 0 {
        lemma_total_den_positive(events.drop_last());
        let a = total_dur(events.drop_last()).den;
        let b = events.last().dur.den as int;
        assert(a * b > 0) by (nonlinear_arith)
            requires
                a > 0,
                b > 0,
        ;
    }
}

/// The note is one of the 128, its velocity is no more than full scale, and
/// its sounded fraction is a fraction that is not negative.
pub open spec fn note_ok(n: Note) -> bool {
    n.note_num <= 127 && n.velocity <= 100 && n.dur.num >= 0 && n.dur.den > 0
}

/// Every note of the action and its controller change lie within their ranges.
pub open spec fn action_ok(a: ActionView) -> bool {
    match a {
        ActionView::Note(n) => note_ok(n),
        ActionView::Chord(ns) => forall|k: int| 0 <= k < ns.len() ==> note_ok(#[trigger] ns[k]),
        ActionView::Ctrl(c) => c.cc <= 127 && c.value <= 100,
        ActionView::Rest => true,
    }
}

/// The event's duration is a fraction that is not negative, and its action
/// lies within its ranges.
pub open spec fn event_ok(e: EventView) -> bool {
    e.dur.num >= 0 && e.dur.den > 0 && action_ok(e.action)
}

impl PatternView {
    /// The channel is one of the sixteen, the length is positive, every
    /// duration is a fraction that is not negative, and every note and every
    /// controller change lies within its range.
    pub open spec fn wf(self) -> bool {
        &&& 1 <= self.channel <= 16
        &&& self.length_bars.num > 0
        &&& self.length_bars.den > 0
        &&& forall|i: int| 0 <= i < self.events.len() ==> event_ok(#[trigger] self.events[i])
    }
}

impl Pattern {
    /// Whether the channel is one of the sixteen, the length is positive, every
    /// duration is a fraction that is not negative, and every note and every
    /// controller change lies within its range.
    pub fn is_well_formed(&self) -> (b: bool)
        ensures
            b == self.deep_view().wf(),
    {
        if self.channel < 1 || self.channel > 16 || self.length_bars.num <= 0
            || self.length_bars.den <= 0 {
            return false;
        }
        let mut i: usize = 0;
        while i < self.events.len()
            invariant
                i <= self.events.len(),
                forall|j: int| 0 <= j < i ==> event_ok(#[trigger] self.deep_view().events[j]),
            decreases self.events.len() - i,
        {
            let ev = &self.events[i];
            if ev.dur.num < 0 || ev.dur.den <= 0 {
                assert(!event_ok(self.deep_view().events[i as int]));
                return false;
            }
            match &ev.action {
                EventType::NoteEvent(n) => {
                    if n.note_num > 127 || n.velocity > 100 || n.dur.num < 0 || n.dur.den <= 0 {
                        assert(!event_ok(self.deep_view().events[i as int]));
                        return false;
                    }
                },
                EventType::Ctrl(c) => {
                    if c.cc > 127 || c.value > 100 {
                        assert(!event_ok(self.deep_view().events[i as int]));
                        return false;
                    }
                },
                EventType::MultiNoteEvent(ns) => {
                    let mut k: usize = 0;
                    while k < ns.len()
                        invariant
                            k <= ns.len(),
                            i < self.events.len(),
                            self.events@[i as int].action == EventType::MultiNoteEvent(*ns),
                            forall|j: int| 0 <= j < k ==> note_ok(#[trigger] ns@[j]),
                        decreases ns.len() - k,
                    {
                        if ns[k].note_num > 127 || ns[k].velocity > 100 || ns[k].dur.num < 0
                            || ns[k].dur.den <= 0 {
                            let ghost a = self.deep_view().events[i as int].action;
                            assert(a->Chord_0 == ns@);
                            assert(!note_ok(a->Chord_0[k as int]));
                            return false;
                        }
                        k += 1;
                    }
                },
                _ => {},
            }
            assert(event_ok(self.deep_view().events[i as int]));
            i += 1;
        }
        true
    }
}

/// A copy of a list of notes.
pub fn copy_notes(notes: &Vec<Note>) -> (r: Vec<Note>)
    ensures
        r@ == notes@,
{
    let mut out: Vec<Note> = Vec::new();
    let mut i: usize = 0;
    while i < notes.len()
        invariant
            i <= notes.len(),
            out@ == notes@.subrange(0, i as int),
        decreases notes.len() - i,
    {
        out.push(notes[i]);
        assert(out@ =~= notes@.subrange(0, i + 1));
        i += 1;
    }
    assert(notes@.subrange(0, notes.len() as int) =~= notes@);
    out
}

impl EventType {
    /// A copy of this action.
    pub fn duplicate(&self) -> (r: EventType)
        ensures
            r.deep_view() == self.deep_view(),
    {
        match self {
            EventType::Rest => EventType::Rest,
            EventType::NoteEvent(n) => EventType::NoteEvent(*n),
            EventType::MultiNoteEvent(ns) => EventType::MultiNoteEvent(copy_notes(ns)),
            EventType::Ctrl(c) => EventType::Ctrl(*c),
        }
    }
}

impl Event {
    /// A copy of this event.
    pub fn duplicate(&self) -> (r: Event)
        ensures
            r.deep_view() == self.deep_view(),
    {
        Event { action: self.action.duplicate(), dur: self.dur }
    }
}

/// A copy of a list of events.
pub fn copy_events(events: &Vec<Event>) -> (r: Vec<Event>)
    ensures
        r.deep_view() == events.deep_view(),
{
    let mut out: Vec<Event> = Vec::new();
    let mut i: usize = 0;
    while i < events.len()
        invariant
            i <= events.len(),
            out.len() == i,
            forall|j: int| 0 <= j < i ==> out@[j].deep_view() == events@[j].deep_view(),
        decreases events.len() - i,
    {
        out.push(events[i].duplicate());
        i += 1;
    }
    assert(out.deep_view() =~= events.deep_view());
    out
}

/// The least common multiple of the events' denominators.
pub open spec fn dens_lcm(events: Seq<EventView>) -> nat
    decreases events.len(),
{
    if events.len() == 0 {
        1
    } else {
        lcm(dens_lcm(events.drop_last()), abs(events.last().dur.den as int))
    }
}

/// The least common multiple of some positive denominators is positive.
pub proof fn lemma_dens_lcm_positive(events: Seq<EventView>)
    requires
        forall|j: int| 0 <= j < events.len() ==> (#[trigger] events[j]).dur.den > 0,
    ensures
        1 <= dens_lcm(events),
    decreases events.len(),
{
    if events.len() > 0 {
        lemma_dens_lcm_positive(events.drop_last());
        lemma_lcm_cofactors(dens_lcm(events.drop_last()), abs(events.last().dur.den as int));
    }
}

/// The least common multiple of the first `i` denominators is at least one and
/// no more than that of all of them.
pub proof fn lemma_dens_lcm_grows(events: Seq<EventView>, i: int)
    requires
        0 <= i <= events.len(),
        forall|j: int| 0 <= j < events.len() ==> (#[trigger] events[j]).dur.den > 0,
    ensures
        1 <= dens_lcm(events.subrange(0, i)) <= dens_lcm(events),
    decreases events.len() - i,
{
    lemma_dens_lcm_positive(events.subrange(0, i));
    if i == events.len() {
        assert(events.subrange(0, i) =~= events);
    } else {
        lemma_dens_lcm_grows(events, i + 1);
        let next = events.subrange(0, i + 1);
        assert(next.drop_last() =~= events.subrange(0, i));
        assert(next.last() == events[i]);
        let a = dens_lcm(events.subrange(0, i));
        let b = abs(events[i].dur.den as int);
        lemma_lcm_cofactors(a, b);
        let f = b / gcd(a, b);
        assert(a * f >= a) by (nonlinear_arith)
            requires
                a >= 1,
                f >= 1,
        ;
    }
}

/// The event with its duration written over `l`.
pub open spec fn normalized(e: EventView, l: int) -> EventView {
    EventView {
        action: e.action,
        dur: Dur { num: (e.dur.num * (l / e.dur.den as int)) as i64, den: l as i64 },
    }
}

/// The event with its duration multiplied by `factor`.
pub open spec fn stretched(e: EventView, factor: Dur) -> EventView {
    EventView { action: e.action, dur: e.dur.spec_mul(factor) }
}

/// The event with its note, where it is one note, set to the number `n`.
pub open spec fn repitched(e: EventView, n: u8) -> EventView {
    match e.action {
        ActionView::Note(note) => EventView {
            action: ActionView::Note(Note { note_num: n, ..note }),
            dur: e.dur,
        },
        _ => e,
    }
}

/// The note number that a note text names.
pub open spec fn named_pitch(s: Seq<char>) -> u8 {
    let parsed = parse_note_spec(s)->Some_0;
    parsed.0.note_num
}

/// The event with its note, where it is one note, moved by `offset`.
pub open spec fn transposed(e: EventView, offset: int) -> EventView {
    match e.action {
        ActionView::Note(note) => EventView {
            action: ActionView::Note(Note { note_num: (note.note_num + offset) as u8, ..note }),
            dur: e.dur,
        },
        _ => e,
    }
}

/// The note of an event that is one note stays a note number when moved by
/// `offset`.
pub open spec fn transposable(e: EventView, offset: int) -> bool {
    match e.action {
        ActionView::Note(note) => 0 <= note.note_num + offset <= 255,
        _ => true,
    }
}

impl Pattern {
    /// The least common multiple of the events' denominators, or `None` where it
    /// does not fit in 63 bits.
    pub fn events_lcm(&self) -> (r: Option<i64>)
        requires
            forall|j: int| 0 <= j < self.events.len() ==> (#[trigger] self.events@[j]).dur.den > 0,
        ensures
            r == (if dens_lcm(self.deep_view().events) <= i64::MAX {
                Some(dens_lcm(self.deep_view().events) as i64)
            } else {
                None
            }),
            r is Some ==> r->0 >= 1,
    {
        let ghost evs = self.deep_view().events;
        let mut acc: i64 = 1;
        let mut i: usize = 0;
        assert(evs.subrange(0, 0) =~= Seq::empty());
        while i < self.events.len()
            invariant
                i <= self.events.len(),
                evs == self.deep_view().events,
                evs.len() == self.events.len(),
                forall|j: int| 0 <= j < evs.len() ==> (#[trigger] evs[j]).dur.den > 0,
                forall|j: int| 0 <= j < evs.len() ==> (#[trigger] evs[j]).dur == self.events@[j].dur,
                acc == dens_lcm(evs.subrange(0, i as int)),
                acc >= 1,
            decreases self.events.len() - i,
        {
            let den = self.events[i].dur.den;
            assert(den == evs[i as int].dur.den);
            let m = lcm_wide(acc as i128, den as i128);
            proof {
                let next = evs.subrange(0, i + 1);
                assert(next.drop_last() =~= evs.subrange(0, i as int));
                assert(next.last() == evs[i as int]);
                lemma_dens_lcm_grows(evs, i + 1);
            }
            if m > 0x7fff_ffff_ffff_ffff {
                return None;
            }
            acc = m as i64;
            i += 1;
        }
        assert(evs.subrange(0, i as int) =~= evs);
        Some(acc)
    }

    /// Writes every event's duration over the least common multiple of the
    /// denominators, which it returns. The durations stand for what they stood
    /// for; they are no longer in lowest terms.
    pub fn compute_events_lcm(&mut self) -> (r: i64)
        requires
            old(self).events.len() > 0,
            forall|j: int|
                0 <= j < old(self).events.len() ==> (#[trigger] old(self).events@[j]).dur.den > 0,
            dens_lcm(old(self).deep_view().events) <= i64::MAX,
            forall|j: int|
                0 <= j < old(self).events.len() ==> i64::MIN <= (#[trigger] old(
                    self,
                ).events@[j]).dur.num * (dens_lcm(old(self).deep_view().events) as int / old(
                    self,
                ).events@[j].dur.den as int) <= i64::MAX,
        ensures
            r == dens_lcm(old(self).deep_view().events),
            final(self).deep_view() == (PatternView {
                events: old(self).deep_view().events.map_values(
                    |e: EventView| normalized(e, r as int),
                ),
                ..old(self).deep_view()
            }),
    {
        let l = self.events_lcm().unwrap();
        let ghost before = self.events.deep_view();
        let mut i: usize = 0;
        while i < self.events.len()
            invariant
                i <= self.events.len(),
                self.events.len() == before.len(),
                self.channel == old(self).channel,
                self.length_bars == old(self).length_bars,
                before == old(self).deep_view().events,
                l == dens_lcm(before),
                l >= 1,
                forall|j: int|
                    0 <= j < before.len() ==> (#[trigger] before[j]).dur
                        == old(self).events@[j].dur,
                forall|j: int| 0 <= j < before.len() ==> (#[trigger] old(self).events@[j]).dur.den > 0,
                forall|j: int|
                    0 <= j < before.len() ==> i64::MIN <= (#[trigger] old(self).events@[j]).dur.num
                        * (l as int / old(self).events@[j].dur.den as int) <= i64::MAX,
                forall|j: int|
                    0 <= j < i ==> #[trigger] self.events.deep_view()[j] == normalized(
                        before[j],
                        l as int,
                    ),
                forall|j: int| i <= j < before.len() ==> #[trigger] self.events.deep_view()[j] == before[j],
            decreases self.events.len() - i,
        {
            let ghost prev = self.events@;
            let ghost prev_view = self.events.deep_view();
            let dur = self.events[i].dur;
            assert(prev_view[i as int] == before[i as int]);
            assert(dur == old(self).events@[i as int].dur);
            proof {
                vstd::arithmetic::div_mod::lemma_div_pos_is_pos(l as int, dur.den as int);
                vstd::arithmetic::div_mod::lemma_div_is_ordered_by_denominator(
                    l as int,
                    1,
                    dur.den as int,
                );
                vstd::arithmetic::div_mod::lemma_div_basics(l as int);
            }
            let multiplier: i64 = l / dur.den;
            self.events[i].dur = Dur { num: dur.num * multiplier, den: l };
            proof {
                assert forall|j: int| 0 <= j < i + 1 implies #[trigger] self.events.deep_view()[j]
                    == normalized(before[j], l as int) by {
                    if j < i {
                        assert(self.events@[j] == prev[j]);
                        assert(prev_view[j] == prev[j].deep_view());
                    }
                }
                assert forall|j: int| i + 1 <= j < before.len() implies #[trigger] self.events.deep_view()[j]
                    == before[j] by {
                    assert(self.events@[j] == prev[j]);
                    assert(prev_view[j] == prev[j].deep_view());
                }
            }
            i += 1;
        }
        assert(self.events.deep_view() =~= before.map_values(
            |e: EventView| normalized(e, l as int),
        ));
        l
    }

    /// This pattern under a name.
    pub fn named(self, name: &str) -> (r: NamedPattern)
        ensures
            r.deep_view() == (NamedPatternView {
                channel: self.channel,
                events: self.deep_view().events,
                length_bars: self.length_bars,
                name: name@,
            }),
    {
        NamedPattern {
            channel: self.channel,
            events: self.events,
            length_bars: self.length_bars,
            name: name.to_owned(),
        }
    }
}

impl NamedPattern {
    /// This pattern under another name.
    pub fn named(self, name: &str) -> (r: NamedPattern)
        ensures
            r.deep_view() == (NamedPatternView { name: name@, ..self.deep_view() }),
    {
        NamedPattern {
            channel: self.channel,
            events: self.events,
            length_bars: self.length_bars,
            name: name.to_owned(),
        }
    }

    /// This pattern with its events in the opposite order.
    pub fn reverse(self) -> (r: NamedPattern)
        ensures
            r.deep_view() == (NamedPatternView {
                events: self.deep_view().events.reverse(),
                ..self.deep_view()
            }),
    {
        let ghost before = self.events.deep_view();
        let mut events = self.events;
        let mut reversed: Vec<Event> = Vec::new();
        while events.len() > 0
            invariant
                events.len() + reversed.len() == before.len(),
                forall|j: int| 0 <= j < events.len() ==> #[trigger] events.deep_view()[j] == before[j],
                forall|j: int|
                    0 <= j < reversed.len() ==> #[trigger] reversed.deep_view()[j] == before[before.len()
                        - 1 - j],
            decreases events.len(),
        {
            let ghost prev = events@;
            let ghost prev_view = events.deep_view();
            let ghost done = reversed@;
            let ghost done_view = reversed.deep_view();
            let e = events.pop().unwrap();
            reversed.push(e);
            proof {
                assert(prev_view[prev.len() - 1] == e.deep_view());
                assert forall|j: int| 0 <= j < events.len() implies #[trigger] events.deep_view()[j]
                    == before[j] by {
                    assert(events@[j] == prev[j]);
                    assert(prev_view[j] == prev[j].deep_view());
                }
                assert forall|j: int| 0 <= j < reversed.len() implies #[trigger] reversed.deep_view()[j]
                    == before[before.len() - 1 - j] by {
                    if j < done.len() {
                        assert(reversed@[j] == done[j]);
                        assert(done_view[j] == done[j].deep_view());
                    }
                }
            }
        }
        assert(reversed.deep_view() =~= before.reverse());
        NamedPattern {
            channel: self.channel,
            events: reversed,
            length_bars: self.length_bars,
            name: self.name,
        }
    }

    /// This pattern stretched to a new length: every event's duration is
    /// multiplied by the new length over the old one.
    pub fn len(self, new_length_bars: Dur) -> (r: NamedPattern)
        requires
            Dur::representable(
                new_length_bars.num * self.length_bars.den,
                new_length_bars.den * self.length_bars.num,
            ),
            forall|j: int|
                0 <= j < self.events.len() ==> Dur::representable(
                    (#[trigger] self.events@[j]).dur.num * new_length_bars.spec_div(
                        self.length_bars,
                    ).num,
                    self.events@[j].dur.den * new_length_bars.spec_div(self.length_bars).den,
                ),
        ensures
            r.deep_view() == (NamedPatternView {
                events: self.deep_view().events.map_values(
                    |e: EventView| stretched(e, new_length_bars.spec_div(self.length_bars)),
                ),
                length_bars: new_length_bars,
                ..self.deep_view()
            }),
    {
        let factor = new_length_bars / self.length_bars;
        let ghost before = self.events.deep_view();
        let mut events = self.events;
        let mut i: usize = 0;
        while i < events.len()
            invariant
                i <= events.len(),
                events.len() == before.len(),
                self.events@.len() == before.len(),
                factor == new_length_bars.spec_div(self.length_bars),
                forall|j: int| 0 <= j < before.len() ==> (#[trigger] before[j]).dur == self.events@[j].dur,
                forall|j: int|
                    0 <= j < self.events.len() ==> Dur::representable(
                        (#[trigger] self.events@[j]).dur.num * factor.num,
                        self.events@[j].dur.den * factor.den,
                    ),
                forall|j: int|
                    0 <= j < i ==> #[trigger] events.deep_view()[j] == stretched(before[j], factor),
                forall|j: int| i <= j < before.len() ==> #[trigger] events.deep_view()[j] == before[j],
            decreases events.len() - i,
        {
            let ghost prev = events@;
            let ghost prev_view = events.deep_view();
            let dur = events[i].dur;
            assert(prev_view[i as int] == before[i as int]);
            assert(dur == self.events@[i as int].dur);
            assert(Dur::representable(
                self.events@[i as int].dur.num * factor.num,
                self.events@[i as int].dur.den * factor.den,
            ));
            events[i].dur = dur * factor;
            proof {
                assert forall|j: int| 0 <= j < i + 1 implies #[trigger] events.deep_view()[j]
                    == stretched(before[j], factor) by {
                    if j < i {
                        assert(events@[j] == prev[j]);
                        assert(prev_view[j] == prev[j].deep_view());
                    }
                }
                assert forall|j: int| i + 1 <= j < before.len() implies #[trigger] events.deep_view()[j]
                    == before[j] by {
                    assert(events@[j] == prev[j]);
                    assert(prev_view[j] == prev[j].deep_view());
                }
            }
            i += 1;
        }
        assert(events.deep_view() =~= before.map_values(|e: EventView| stretched(e, factor)));
        NamedPattern {
            channel: self.channel,
            events: events,
            length_bars: new_length_bars,
            name: self.name,
        }
    }

    /// This pattern with every single note set to the pitch that `expr` names;
    /// velocities and sounded fractions stay.
    pub fn note(self, expr: &str) -> (r: NamedPattern)
        requires
            parse_note_spec(expr@) is Some,
        ensures
            r.deep_view() == (NamedPatternView {
                events: self.deep_view().events.map_values(
                    |e: EventView| repitched(e, named_pitch(expr@)),
                ),
                ..self.deep_view()
            }),
    {
        let parsed = parse_note(expr).unwrap();
        let pitch = parsed.0.note_num;
        let ghost before = self.events.deep_view();
        let mut events = self.events;
        let mut i: usize = 0;
        while i < events.len()
            invariant
                i <= events.len(),
                events.len() == before.len(),
                forall|j: int| 0 <= j < i ==> #[trigger] events.deep_view()[j] == repitched(before[j], pitch),
                forall|j: int| i <= j < before.len() ==> #[trigger] events.deep_view()[j] == before[j],
            decreases events.len() - i,
        {
            let ghost prev = events@;
            let ghost prev_view = events.deep_view();
            assert(prev_view[i as int] == before[i as int]);
            let current = match &events[i].action {
                EventType::NoteEvent(n) => Some(*n),
                _ => None,
            };
            match current {
                Some(n) => {
                    events[i].action = EventType::NoteEvent(
                        Note { note_num: pitch, dur: n.dur, velocity: n.velocity },
                    );
                },
                None => {},
            }
            proof {
                assert forall|j: int| 0 <= j < i + 1 implies #[trigger] events.deep_view()[j]
                    == repitched(before[j], pitch) by {
                    if j < i {
                        assert(events@[j] == prev[j]);
                        assert(prev_view[j] == prev[j].deep_view());
                    }
                }
                assert forall|j: int| i + 1 <= j < before.len() implies #[trigger] events.deep_view()[j]
                    == before[j] by {
                    assert(events@[j] == prev[j]);
                    assert(prev_view[j] == prev[j].deep_view());
                }
            }
            i += 1;
        }
        assert(events.deep_view() =~= before.map_values(|e: EventView| repitched(e, pitch)));
        NamedPattern {
            channel: self.channel,
            events: events,
            length_bars: self.length_bars,
            name: self.name,
        }
    }

    /// This pattern with every single note moved by `offset` semitones.
    pub fn trans(self, offset: i64) -> (r: NamedPattern)
        requires
            forall|j: int|
                0 <= j < self.events.len() ==> transposable(
                    #[trigger] self.deep_view().events[j],
                    offset as int,
                ),
        ensures
            r.deep_view() == (NamedPatternView {
                events: self.deep_view().events.map_values(
                    |e: EventView| transposed(e, offset as int),
                ),
                ..self.deep_view()
            }),
    {
        let ghost before = self.events.deep_view();
        assert(before == self.deep_view().events);
        let mut events = self.events;
        let mut i: usize = 0;
        while i < events.len()
            invariant
                i <= events.len(),
                events.len() == before.len(),
                forall|j: int| 0 <= j < before.len() ==> transposable(#[trigger] before[j], offset as int),
                forall|j: int|
                    0 <= j < i ==> #[trigger] events.deep_view()[j] == transposed(
                        before[j],
                        offset as int,
                    ),
                forall|j: int| i <= j < before.len() ==> #[trigger] events.deep_view()[j] == before[j],
            decreases events.len() - i,
        {
            let ghost prev = events@;
            let ghost prev_view = events.deep_view();
            assert(prev_view[i as int] == before[i as int]);
            assert(transposable(before[i as int], offset as int));
            let current = match &events[i].action {
                EventType::NoteEvent(n) => Some(*n),
                _ => None,
            };
            match current {
                Some(n) => {
                    let moved: i128 = (n.note_num as i128) + (offset as i128);
                    events[i].action = EventType::NoteEvent(
                        Note { note_num: moved as u8, dur: n.dur, velocity: n.velocity },
                    );
                },
                None => {},
            }
            proof {
                assert forall|j: int| 0 <= j < i + 1 implies #[trigger] events.deep_view()[j]
                    == transposed(before[j], offset as int) by {
                    if j < i {
                        assert(events@[j] == prev[j]);
                        assert(prev_view[j] == prev[j].deep_view());
                    }
                }
                assert forall|j: int| i + 1 <= j < before.len() implies #[trigger] events.deep_view()[j]
                    == before[j] by {
                    assert(events@[j] == prev[j]);
                    assert(prev_view[j] == prev[j].deep_view());
                }
            }
            i += 1;
        }
        assert(events.deep_view() =~= before.map_values(
            |e: EventView| transposed(e, offset as int),
        ));
        NamedPattern {
            channel: self.channel,
            events: events,
            length_bars: self.length_bars,
            name: self.name,
        }
    }
}

impl NamedPattern {
    /// Whether every single note stays a note number when moved by `offset`:
    /// what `trans` asks for.
    pub fn can_trans(&self, offset: i64) -> (b: bool)
        ensures
            b == forall|j: int|
                0 <= j < self.events.len() ==> transposable(
                    #[trigger] self.deep_view().events[j],
                    offset as int,
                ),
    {
        let ghost views = self.deep_view().events;
        let mut i: usize = 0;
        while i < self.events.len()
            invariant
                i <= self.events.len(),
                views == self.deep_view().events,
                forall|j: int| 0 <= j < i ==> transposable(#[trigger] views[j], offset as int),
            decreases self.events.len() - i,
        {
            match &self.events[i].action {
                EventType::NoteEvent(n) => {
                    let moved: i128 = (n.note_num as i128) + (offset as i128);
                    if moved < 0 || moved > 255 {
                        assert(!transposable(views[i as int], offset as int));
                        return false;
                    }
                },
                _ => {},
            }
            assert(transposable(views[i as int], offset as int));
            i += 1;
        }
        true
    }

    /// Whether every duration has a representation when the pattern is
    /// stretched to `new_length_bars`: what `len` asks for.
    pub fn can_len(&self, new_length_bars: Dur) -> (b: bool)
        ensures
            b == (Dur::representable(
                new_length_bars.num * self.length_bars.den,
                new_length_bars.den * self.length_bars.num,
            ) && forall|j: int|
                0 <= j < self.events.len() ==> Dur::representable(
                    (#[trigger] self.events@[j]).dur.num * new_length_bars.spec_div(
                        self.length_bars,
                    ).num,
                    self.events@[j].dur.den * new_length_bars.spec_div(self.length_bars).den,
                )),
    {
        let factor = match new_length_bars.checked_div(self.length_bars) {
            Some(f) => f,
            None => {
                return false;
            },
        };
        let mut i: usize = 0;
        while i < self.events.len()
            invariant
                i <= self.events.len(),
                factor == new_length_bars.spec_div(self.length_bars),
                forall|j: int|
                    0 <= j < i ==> Dur::representable(
                        (#[trigger] self.events@[j]).dur.num * factor.num,
                        self.events@[j].dur.den * factor.den,
                    ),
            decreases self.events.len() - i,
        {
            if self.events[i].dur.checked_mul(factor).is_none() {
                return false;
            }
            i += 1;
        }
        true
    }
}

} // verus!
