//! Scales: patterns whose notes are made to follow the steps of a scale.
use vstd::prelude::*;
use crate::dsl::{events_spec, notes, Lowering};
use crate::dur::Dur;
use crate::lex::chars_of;
use crate::parse::ParseError;
use crate::pattern::{copy_events, ActionView, Event, EventType, EventView, NamedPattern,
    NamedPatternView, Note};

verus! {

/// The pitch class of a key: one of the seven letters, with `'` behind it for
/// the five that can be raised.
pub open spec fn key_of(s: Seq<char>) -> Option<u8> {
    if s.len() == 1 {
        if s[0] == 'C' {
            Some(0u8)
        } else if s[0] == 'D' {
            Some(2u8)
        } else if s[0] == 'E' {
            Some(4u8)
        } else if s[0] == 'F' {
            Some(5u8)
        } else if s[0] == 'G' {
            Some(7u8)
        } else if s[0] == 'A' {
            Some(9u8)
        } else if s[0] == 'B' {
            Some(11u8)
        } else {
            None
        }
    } else if s.len() == 2 && s[1] == '\'' {
        if s[0] == 'C' {
            Some(1u8)
        } else if s[0] == 'D' {
            Some(3u8)
        } else if s[0] == 'F' {
            Some(6u8)
        } else if s[0] == 'G' {
            Some(8u8)
        } else if s[0] == 'A' {
            Some(10u8)
        } else {
            None
        }
    } else {
        None
    }
}

/// The pitch class of a key, where `def` names one.
pub fn find_key(def: &str) -> (r: Option<u8>)
    ensures
        r == key_of(def@),
        r is Some ==> r->0 < 12,
{
    let s = chars_of(def);
    if s.len() == 1 {
        let c = s[0];
        if c == 'C' {
            Some(0)
        } else if c == 'D' {
            Some(2)
        } else if c == 'E' {
            Some(4)
        } else if c == 'F' {
            Some(5)
        } else if c == 'G' {
            Some(7)
        } else if c == 'A' {
            Some(9)
        } else if c == 'B' {
            Some(11)
        } else {
            None
        }
    } else if s.len() == 2 && s[1] == '\'' {
        let c = s[0];
        if c == 'C' {
            Some(1)
        } else if c == 'D' {
            Some(3)
        } else if c == 'F' {
            Some(6)
        } else if c == 'G' {
            Some(8)
        } else if c == 'A' {
            Some(10)
        } else {
            None
        }
    } else {
        None
    }
}

/// The pitch class of the key that `def` names.
pub fn get_key(def: &str) -> (r: u8)
    requires
        key_of(def@) is Some,
    ensures
        r == key_of(def@)->0,
        r < 12,
{
    find_key(def).unwrap()
}

/// The pitch class of step `k` of a pattern: the key raised by the scale's
/// entry that the index list names for the step, the list going round.
pub open spec fn step_class(key: u8, scl: Seq<u8>, idx: Seq<usize>, k: int) -> int {
    key + scl[idx[k % (idx.len() as int)] as int] % 12
}

/// The event with its note, where it is one note, put on `pitchclass` in the
/// octave that it is in.
pub open spec fn scaled(e: EventView, pitchclass: int) -> EventView {
    match e.action {
        ActionView::Note(note) => EventView {
            action: ActionView::Note(
                Note { note_num: (pitchclass + (note.note_num / 12) * 12) as u8, ..note },
            ),
            dur: e.dur,
        },
        _ => e,
    }
}

/// The note of an event that is one note stays a note number when put on
/// `pitchclass`.
pub open spec fn scalable(e: EventView, pitchclass: int) -> bool {
    match e.action {
        ActionView::Note(note) => pitchclass + (note.note_num / 12) * 12 <= 255,
        _ => true,
    }
}

/// The events can follow the scale: the key is a pitch class, every step finds
/// its entry of the scale, and every note stays a note number.
pub open spec fn scale_fits(events: Seq<EventView>, key: u8, scl: Seq<u8>, idx: Seq<usize>) -> bool {
    &&& key < 12
    &&& events.len() > 0 ==> idx.len() > 0
    &&& forall|k: int|
        0 <= k < events.len() ==> (#[trigger] idx[k % (idx.len() as int)]) < scl.len()
    &&& forall|k: int|
        0 <= k < events.len() ==> scalable(#[trigger] events[k], step_class(key, scl, idx, k))
}

/// The events made to follow the scale, step by step.
pub open spec fn scaled_events(events: Seq<EventView>, key: u8, scl: Seq<u8>, idx: Seq<usize>) -> Seq<
    EventView,
> {
    Seq::new(events.len(), |k: int| scaled(events[k], step_class(key, scl, idx, k)))
}

/// The indices of a scale in their order.
pub open spec fn default_index(n: nat) -> Seq<usize> {
    Seq::new(n, |i: int| i as usize)
}

/// Whether the events can follow the scale: what putting them on it asks for.
pub fn fits_scale(events: &Vec<Event>, key: u8, scl: &Vec<u8>, idx: &Vec<usize>) -> (b: bool)
    ensures
        b == scale_fits(events.deep_view(), key, scl@, idx@),
{
    let ghost views = events.deep_view();
    if key >= 12 {
        return false;
    }
    if events.len() == 0 {
        return true;
    }
    if idx.len() == 0 {
        return false;
    }
    let mut scl_idx: usize = 0;
    let mut k: usize = 0;
    while k < events.len()
        invariant
            k <= events.len(),
            views == events.deep_view(),
            key < 12,
            idx.len() > 0,
            scl_idx == k as int % (idx.len() as int),
            forall|j: int| 0 <= j < k ==> (#[trigger] idx@[j % (idx.len() as int)]) < scl.len(),
            forall|j: int|
                0 <= j < k ==> scalable(#[trigger] views[j], step_class(key, scl@, idx@, j)),
        decreases events.len() - k,
    {
        proof {
            vstd::arithmetic::div_mod::lemma_mod_bound(k as int, idx.len() as int);
        }
        if idx[scl_idx] >= scl.len() {
            assert(!(idx@[k as int % (idx.len() as int)] < scl.len()));
            return false;
        }
        let class: u8 = key + scl[idx[scl_idx]] % 12;
        match &events[k].action {
            EventType::NoteEvent(note) => {
                if (class as u32) + ((note.note_num / 12) as u32) * 12 > 255 {
                    assert(!scalable(views[k as int], step_class(key, scl@, idx@, k as int)));
                    return false;
                }
            },
            _ => {},
        }
        assert(scalable(views[k as int], step_class(key, scl@, idx@, k as int)));
        proof {
            lemma_next_round(k as int, idx.len() as int);
        }
        scl_idx = if scl_idx + 1 == idx.len() { 0 } else { scl_idx + 1 };
        k += 1;
    }
    true
}

fn compute_scale_event(event: &Event, pitchclass: u8) -> (r: Event)
    requires
        scalable(event.deep_view(), pitchclass as int),
    ensures
        r.deep_view() == scaled(event.deep_view(), pitchclass as int),
{
    Event {
        action: match &event.action {
            EventType::NoteEvent(note) => {
                let octave: u8 = note.note_num / 12;
                EventType::NoteEvent(
                    Note {
                        note_num: pitchclass + (octave * 12),
                        velocity: note.velocity,
                        dur: note.dur,
                    },
                )
            },
            e => e.duplicate(),
        },
        dur: event.dur,
    }
}

fn compute_scale_events(events: &Vec<Event>, key: u8, scl: &Vec<u8>, idx: &Vec<usize>) -> (r: Vec<
    Event,
>)
    requires
        scale_fits(events.deep_view(), key, scl@, idx@),
    ensures
        r.deep_view() == scaled_events(events.deep_view(), key, scl@, idx@),
{
    let ghost views = events.deep_view();
    let mut sev: Vec<Event> = Vec::new();
    let mut scl_idx: usize = 0;
    let mut k: usize = 0;
    while k < events.len()
        invariant
            k <= events.len(),
            views == events.deep_view(),
            scale_fits(views, key, scl@, idx@),
            idx.len() > 0 ==> scl_idx == k as int % (idx.len() as int),
            sev.len() == k,
            forall|j: int|
                0 <= j < k ==> #[trigger] sev.deep_view()[j] == scaled(
                    views[j],
                    step_class(key, scl@, idx@, j),
                ),
        decreases events.len() - k,
    {
        let ghost done = sev@;
        let ghost done_view = sev.deep_view();
        proof {
            vstd::arithmetic::div_mod::lemma_mod_bound(k as int, idx.len() as int);
            assert(idx@[k as int % (idx.len() as int)] < scl.len());
            assert(scalable(views[k as int], step_class(key, scl@, idx@, k as int)));
        }
        let entry: u8 = scl[idx[scl_idx]] % 12;
        let e = compute_scale_event(&events[k], key + entry);
        sev.push(e);
        proof {
            assert forall|j: int| 0 <= j < k + 1 implies #[trigger] sev.deep_view()[j] == scaled(
                views[j],
                step_class(key, scl@, idx@, j),
            ) by {
                if j < k {
                    assert(sev@[j] == done[j]);
                    assert(done_view[j] == done[j].deep_view());
                }
            }
            lemma_next_round(k as int, idx.len() as int);
        }
        scl_idx = if scl_idx + 1 == idx.len() { 0 } else { scl_idx + 1 };
        k += 1;
    }
    assert(sev.deep_view() =~= scaled_events(views, key, scl@, idx@));
    sev
}

/// Going round a list of `n`: the place after `x % n`.
proof fn lemma_next_round(x: int, n: int)
    requires
        n > 0,
        x >= 0,
    ensures
        (x + 1) % n == (if x % n + 1 == n {
            0
        } else {
            x % n + 1
        }),
{
    let q = x / n;
    let r = x % n;
    vstd::arithmetic::div_mod::lemma_fundamental_div_mod(x, n);
    vstd::arithmetic::div_mod::lemma_mod_bound(x, n);
    if r + 1 == n {
        assert(x + 1 == (q + 1) * n + 0) by (nonlinear_arith)
            requires
                x == n * q + r,
                r + 1 == n,
        ;
        vstd::arithmetic::div_mod::lemma_fundamental_div_mod_converse(x + 1, n, q + 1, 0);
    } else {
        assert(x + 1 == q * n + (r + 1)) by (nonlinear_arith)
            requires
                x == n * q + r,
        ;
        vstd::arithmetic::div_mod::lemma_fundamental_div_mod_converse(x + 1, n, q, r + 1);
    }
}

fn compute_scale_pattern(pat: &NamedPattern, key: u8, scl: &Vec<u8>, idx: &Vec<usize>) -> (r:
    NamedPattern)
    requires
        scale_fits(pat.deep_view().events, key, scl@, idx@),
    ensures
        r.deep_view() == (NamedPatternView {
            events: scaled_events(pat.deep_view().events, key, scl@, idx@),
            ..pat.deep_view()
        }),
{
    NamedPattern {
        channel: pat.channel,
        events: compute_scale_events(&pat.events, key, scl, idx),
        length_bars: pat.length_bars,
        name: pat.name.clone(),
    }
}

/// The indices of a scale in their order: each entry of the scale in turn.
pub fn default_indices(scl: &Vec<u8>) -> (r: Vec<usize>)
    ensures
        r@ == default_index(scl@.len()),
{
    let mut out: Vec<usize> = Vec::new();
    let mut i: usize = 0;
    while i < scl.len()
        invariant
            i <= scl.len(),
            out@ == default_index(i as nat),
        decreases scl.len() - i,
    {
        out.push(i);
        assert(out@ =~= default_index((i + 1) as nat));
        i += 1;
    }
    out
}

/// A pattern whose notes are to follow a scale, with the order in which the
/// steps of the scale are taken.
pub enum ScalePattern {
    WithDefaultIndex(NamedPattern),
    WithCustomIndex(NamedPattern, Vec<usize>),
}

impl ScalePattern {
    /// The pattern that is to follow the scale.
    pub open spec fn pattern(&self) -> NamedPatternView {
        match *self {
            ScalePattern::WithDefaultIndex(pat) => pat.deep_view(),
            ScalePattern::WithCustomIndex(pat, _) => pat.deep_view(),
        }
    }

    /// The order in which the steps of a scale of `n` entries are taken.
    pub open spec fn order(&self, n: nat) -> Seq<usize> {
        match *self {
            ScalePattern::WithDefaultIndex(_) => default_index(n),
            ScalePattern::WithCustomIndex(_, idx) => idx@,
        }
    }

    /// The pattern with its notes on the steps of the scale `scl` in `key`.
    pub fn update_notes(&self, key: u8, scl: &Vec<u8>) -> (r: NamedPattern)
        requires
            scale_fits(self.pattern().events, key, scl@, self.order(scl@.len())),
        ensures
            r.deep_view() == (NamedPatternView {
                events: scaled_events(self.pattern().events, key, scl@, self.order(scl@.len())),
                ..self.pattern()
            }),
    {
        match self {
            ScalePattern::WithDefaultIndex(pat) => {
                let idxs = default_indices(scl);
                compute_scale_pattern(pat, key, scl, &idxs)
            },
            ScalePattern::WithCustomIndex(pat, idx) => compute_scale_pattern(pat, key, scl, idx),
        }
    }

    /// The same pattern with `idx` the order in which the steps are taken.
    pub fn index(&self, idx: Vec<usize>) -> (r: ScalePattern)
        ensures
            r.pattern() == self.pattern(),
            r is WithCustomIndex,
            r->WithCustomIndex_1@ == idx@,
    {
        let pat = match self {
            ScalePattern::WithDefaultIndex(pat) => pat,
            ScalePattern::WithCustomIndex(pat, _) => pat,
        };
        ScalePattern::WithCustomIndex(
            NamedPattern {
                channel: pat.channel,
                events: copy_events(&pat.events),
                length_bars: pat.length_bars,
                name: pat.name.clone(),
            },
            idx,
        )
    }
}

/// `r` is what reading `def` and putting its notes on the scale asks for.
pub open spec fn scale_read(
    def: Seq<char>,
    key: u8,
    scl: Seq<u8>,
    idx: Seq<usize>,
    r: Result<NamedPatternView, ParseError>,
) -> bool {
    match events_spec(def, Dur { num: 1, den: 1 }) {
        Ok(Lowering::Done(evs)) => r == Ok::<NamedPatternView, ParseError>(
            NamedPatternView {
                channel: 1,
                events: scaled_events(evs, key, scl, idx),
                length_bars: Dur { num: 1, den: 1 },
                name: Seq::empty(),
            },
        ),
        Ok(Lowering::TooFine) => r == Err::<NamedPatternView, ParseError>(
            ParseError::InvalidDuration,
        ),
        Ok(Lowering::Untied) => false,
        Err(e) => r == Err::<NamedPatternView, ParseError>(e),
    }
}

/// The text can be read and its notes put on the scale: no tie is left without
/// its event, and the events that come out can follow the scale.
pub open spec fn scale_defined(def: Seq<char>, key: Seq<char>, scl: Seq<u8>, idx: Seq<usize>) -> bool {
    &&& key_of(key) is Some
    &&& match events_spec(def, Dur { num: 1, den: 1 }) {
        Ok(Lowering::Done(evs)) => scale_fits(evs, key_of(key)->0, scl, idx),
        Ok(Lowering::Untied) => false,
        _ => true,
    }
}

/// The pattern of the text `def`, without a name, its notes on the steps of the
/// scale `scl` in `key`, each entry of the scale in turn.
pub fn scale(key: &str, def: &str, scl: Vec<u8>) -> (r: Result<NamedPattern, ParseError>)
    requires
        scale_defined(def@, key@, scl@, default_index(scl@.len())),
    ensures
        scale_read(
            def@,
            key_of(key@)->0,
            scl@,
            default_index(scl@.len()),
            match r {
                Ok(p) => Ok(p.deep_view()),
                Err(e) => Err(e),
            },
        ),
{
    let pattern = match notes(def) {
        Ok(p) => p,
        Err(e) => {
            return Err(e);
        },
    };
    proof {
        reveal_strlit("");
        assert(""@ =~= Seq::<char>::empty());
    }
    Ok(ScalePattern::WithDefaultIndex(pattern.named("")).update_notes(get_key(key), &scl))
}

/// As `scale`, with `idx` the order in which the entries of the scale are
/// taken.
pub fn scali(key: &str, def: &str, scl: Vec<u8>, idx: Vec<usize>) -> (r: Result<
    NamedPattern,
    ParseError,
>)
    requires
        scale_defined(def@, key@, scl@, idx@),
    ensures
        scale_read(
            def@,
            key_of(key@)->0,
            scl@,
            idx@,
            match r {
                Ok(p) => Ok(p.deep_view()),
                Err(e) => Err(e),
            },
        ),
{
    let pattern = match notes(def) {
        Ok(p) => p,
        Err(e) => {
            return Err(e);
        },
    };
    proof {
        reveal_strlit("");
        assert(""@ =~= Seq::<char>::empty());
    }
    Ok(ScalePattern::WithCustomIndex(pattern.named(""), idx).update_notes(get_key(key), &scl))
}

/// The entries of a scale start at the key note, rise, and stay within the
/// octave.
pub open spec fn scale_shaped(classes: Seq<u8>) -> bool {
    &&& classes.len() > 0
    &&& classes[0] == 0
    &&& forall|i: int| 0 <= i < classes.len() ==> (#[trigger] classes[i]) < 12
    &&& forall|i: int, j: int| 0 <= i < j < classes.len() ==> classes[i] < classes[j]
}

/// A scale under its name.
pub struct NamedScale {
    pub name: String,
    pub classes: Vec<u8>,
}

/// A named scale as a mathematical value.
pub struct ScaleView {
    pub name: Seq<char>,
    pub classes: Seq<u8>,
}

impl DeepView for NamedScale {
    type V = ScaleView;

    open spec fn deep_view(&self) -> ScaleView {
        ScaleView { name: self.name@, classes: self.classes@ }
    }
}

/// The first part of the table: acoustic to gypsy.
pub open spec fn scale_table_first() -> Seq<ScaleView> {
    seq![
        ScaleView { name: "acoustic"@, classes: seq![0u8, 2u8, 4u8, 6u8, 7u8, 9u8, 10u8] },
        ScaleView { name: "altered"@, classes: seq![0u8, 1u8, 3u8, 4u8, 6u8, 8u8, 10u8] },
        ScaleView { name: "augmented"@, classes: seq![0u8, 3u8, 4u8, 7u8, 8u8, 11u8] },
        ScaleView { name: "bebop"@, classes: seq![0u8, 2u8, 4u8, 5u8, 7u8, 9u8, 10u8, 11u8] },
        ScaleView { name: "blues"@, classes: seq![0u8, 3u8, 5u8, 6u8, 7u8, 10u8] },
        ScaleView {
            name: "chromatic"@,
            classes: seq![0u8, 1u8, 2u8, 3u8, 4u8, 5u8, 6u8, 7u8, 8u8, 9u8, 10u8, 11u8],
        },
        ScaleView { name: "dorian"@, classes: seq![0u8, 2u8, 3u8, 5u8, 7u8, 9u8, 10u8] },
        ScaleView { name: "double_harm"@, classes: seq![0u8, 1u8, 4u8, 5u8, 7u8, 8u8, 11u8] },
        ScaleView { name: "enigmatic"@, classes: seq![0u8, 1u8, 4u8, 6u8, 8u8, 10u8, 11u8] },
        ScaleView { name: "flamenco"@, classes: seq![0u8, 1u8, 4u8, 5u8, 7u8, 8u8, 11u8] },
        ScaleView { name: "gypsy"@, classes: seq![0u8, 2u8, 3u8, 6u8, 7u8, 8u8, 10u8] },
    ]
}

/// The second part of the table: half_diminished to maj.
pub open spec fn scale_table_second() -> Seq<ScaleView> {
    seq![
        ScaleView { name: "half_diminished"@, classes: seq![0u8, 2u8, 3u8, 5u8, 6u8, 8u8, 10u8] },
        ScaleView { name: "hirajoshi"@, classes: seq![0u8, 4u8, 6u8, 7u8, 11u8] },
        ScaleView { name: "insen"@, classes: seq![0u8, 1u8, 5u8, 7u8, 10u8] },
        ScaleView { name: "iwato"@, classes: seq![0u8, 1u8, 5u8, 6u8, 10u8] },
        ScaleView { name: "locrian"@, classes: seq![0u8, 1u8, 3u8, 5u8, 6u8, 8u8, 10u8] },
        ScaleView { name: "locrian_sharp6"@, classes: seq![0u8, 1u8, 3u8, 5u8, 6u8, 9u8, 10u8] },
        ScaleView { name: "lydian"@, classes: seq![0u8, 2u8, 4u8, 6u8, 7u8, 9u8, 11u8] },
        ScaleView { name: "lydian_augmented"@, classes: seq![0u8, 2u8, 4u8, 6u8, 8u8, 9u8, 11u8] },
        ScaleView { name: "lydian_diminished"@, classes: seq![0u8, 2u8, 3u8, 6u8, 7u8, 9u8, 11u8] },
        ScaleView { name: "ionian"@, classes: seq![0u8, 2u8, 4u8, 5u8, 7u8, 9u8, 11u8] },
        ScaleView { name: "maj"@, classes: seq![0u8, 2u8, 4u8, 5u8, 7u8, 9u8, 11u8] },
    ]
}

/// The third part of the table: maj_harm to min_pent.
pub open spec fn scale_table_third() -> Seq<ScaleView> {
    seq![
        ScaleView { name: "maj_harm"@, classes: seq![0u8, 2u8, 4u8, 5u8, 7u8, 8u8, 11u8] },
        ScaleView { name: "maj_hungarian"@, classes: seq![0u8, 3u8, 4u8, 6u8, 7u8, 9u8, 10u8] },
        ScaleView { name: "maj_locrian"@, classes: seq![0u8, 2u8, 4u8, 5u8, 6u8, 8u8, 10u8] },
        ScaleView { name: "maj_neapolitan"@, classes: seq![0u8, 1u8, 3u8, 5u8, 7u8, 9u8, 11u8] },
        ScaleView { name: "maj_pent"@, classes: seq![0u8, 2u8, 4u8, 7u8, 9u8] },
        ScaleView { name: "min_harm"@, classes: seq![0u8, 2u8, 3u8, 5u8, 7u8, 8u8, 11u8] },
        ScaleView { name: "min_hungarian"@, classes: seq![0u8, 2u8, 3u8, 6u8, 7u8, 8u8, 11u8] },
        ScaleView { name: "min_melodic"@, classes: seq![0u8, 2u8, 3u8, 5u8, 7u8, 9u8, 11u8] },
        ScaleView { name: "min_nat"@, classes: seq![0u8, 2u8, 3u8, 5u8, 7u8, 8u8, 10u8] },
        ScaleView { name: "min_neapolitan"@, classes: seq![0u8, 1u8, 3u8, 5u8, 7u8, 8u8, 11u8] },
        ScaleView { name: "min_pent"@, classes: seq![0u8, 3u8, 5u8, 7u8, 10u8] },
    ]
}

/// The fourth part of the table: mixolydian to yo.
pub open spec fn scale_table_fourth() -> Seq<ScaleView> {
    seq![
        ScaleView { name: "mixolydian"@, classes: seq![0u8, 2u8, 4u8, 5u8, 7u8, 9u8, 10u8] },
        ScaleView { name: "octatonic"@, classes: seq![0u8, 2u8, 3u8, 5u8, 6u8, 8u8, 9u8, 11u8] },
        ScaleView { name: "persian"@, classes: seq![0u8, 1u8, 4u8, 5u8, 6u8, 8u8, 11u8] },
        ScaleView { name: "phrygian"@, classes: seq![0u8, 1u8, 3u8, 5u8, 7u8, 8u8, 10u8] },
        ScaleView { name: "phrygian_dominant"@, classes: seq![0u8, 1u8, 4u8, 5u8, 7u8, 8u8, 10u8] },
        ScaleView { name: "prometheus"@, classes: seq![0u8, 2u8, 4u8, 6u8, 9u8, 10u8] },
        ScaleView { name: "tritone"@, classes: seq![0u8, 1u8, 4u8, 6u8, 7u8, 10u8] },
        ScaleView { name: "tritone_semi2"@, classes: seq![0u8, 1u8, 2u8, 6u8, 7u8, 8u8] },
        ScaleView { name: "ukrainian_dorian"@, classes: seq![0u8, 2u8, 3u8, 6u8, 7u8, 9u8, 10u8] },
        ScaleView { name: "whole_tone"@, classes: seq![0u8, 2u8, 4u8, 6u8, 8u8, 10u8] },
        ScaleView { name: "yo"@, classes: seq![0u8, 2u8, 5u8, 7u8, 9u8] },
    ]
}

/// The scales that come with the library.
pub open spec fn scale_table() -> Seq<ScaleView> {
    scale_table_first() + scale_table_second() + scale_table_third() + scale_table_fourth()
}

/// The entries of the scale called `name`: those of the last scale of that
/// name in the table.
pub open spec fn scale_lookup(table: Seq<ScaleView>, name: Seq<char>) -> Option<Seq<u8>>
    decreases table.len(),
{
    if table.len() == 0 {
        None
    } else if table.last().name == name {
        Some(table.last().classes)
    } else {
        scale_lookup(table.drop_last(), name)
    }
}

fn add_scale(table: &mut Vec<NamedScale>, name: &str, classes: Vec<u8>)
    requires
        scale_shaped(classes@),
        forall|i: int| 0 <= i < old(table).len() ==> scale_shaped(#[trigger] old(table)@[i].classes@),
    ensures
        final(table).deep_view() == old(table).deep_view().push(
            ScaleView { name: name@, classes: classes@ },
        ),
        forall|i: int| 0 <= i < final(table).len() ==> scale_shaped(#[trigger] final(table)@[i].classes@),
{
    table.push(NamedScale { name: name.to_owned(), classes: classes });
    assert(table.deep_view() =~= old(table).deep_view().push(
        ScaleView { name: name@, classes: classes@ },
    ));
}

fn add_first_scales(table: &mut Vec<NamedScale>)
    requires
        forall|i: int| 0 <= i < old(table).len() ==> scale_shaped(#[trigger] old(table)@[i].classes@),
    ensures
        final(table).deep_view() == old(table).deep_view() + scale_table_first(),
        forall|i: int| 0 <= i < final(table).len() ==> scale_shaped(#[trigger] final(table)@[i].classes@),
{
    add_scale(table, "acoustic", vec![0, 2, 4, 6, 7, 9, 10]);
    add_scale(table, "altered", vec![0, 1, 3, 4, 6, 8, 10]);
    add_scale(table, "augmented", vec![0, 3, 4, 7, 8, 11]);
    add_scale(table, "bebop", vec![0, 2, 4, 5, 7, 9, 10, 11]);
    add_scale(table, "blues", vec![0, 3, 5, 6, 7, 10]);
    add_scale(table, "chromatic", vec![0, 1, 2, 3, 4, 5, 6, 7, 8, 9, 10, 11]);
    add_scale(table, "dorian", vec![0, 2, 3, 5, 7, 9, 10]);
    add_scale(table, "double_harm", vec![0, 1, 4, 5, 7, 8, 11]);
    add_scale(table, "enigmatic", vec![0, 1, 4, 6, 8, 10, 11]);
    add_scale(table, "flamenco", vec![0, 1, 4, 5, 7, 8, 11]);
    add_scale(table, "gypsy", vec![0, 2, 3, 6, 7, 8, 10]);
    assert(table.deep_view() =~= old(table).deep_view() + scale_table_first());
}

fn add_second_scales(table: &mut Vec<NamedScale>)
    requires
        forall|i: int| 0 <= i < old(table).len() ==> scale_shaped(#[trigger] old(table)@[i].classes@),
    ensures
        final(table).deep_view() == old(table).deep_view() + scale_table_second(),
        forall|i: int| 0 <= i < final(table).len() ==> scale_shaped(#[trigger] final(table)@[i].classes@),
{
    add_scale(table, "half_diminished", vec![0, 2, 3, 5, 6, 8, 10]);
    add_scale(table, "hirajoshi", vec![0, 4, 6, 7, 11]);
    add_scale(table, "insen", vec![0, 1, 5, 7, 10]);
    add_scale(table, "iwato", vec![0, 1, 5, 6, 10]);
    add_scale(table, "locrian", vec![0, 1, 3, 5, 6, 8, 10]);
    add_scale(table, "locrian_sharp6", vec![0, 1, 3, 5, 6, 9, 10]);
    add_scale(table, "lydian", vec![0, 2, 4, 6, 7, 9, 11]);
    add_scale(table, "lydian_augmented", vec![0, 2, 4, 6, 8, 9, 11]);
    add_scale(table, "lydian_diminished", vec![0, 2, 3, 6, 7, 9, 11]);
    add_scale(table, "ionian", vec![0, 2, 4, 5, 7, 9, 11]);
    add_scale(table, "maj", vec![0, 2, 4, 5, 7, 9, 11]);
    assert(table.deep_view() =~= old(table).deep_view() + scale_table_second());
}

fn add_third_scales(table: &mut Vec<NamedScale>)
    requires
        forall|i: int| 0 <= i < old(table).len() ==> scale_shaped(#[trigger] old(table)@[i].classes@),
    ensures
        final(table).deep_view() == old(table).deep_view() + scale_table_third(),
        forall|i: int| 0 <= i < final(table).len() ==> scale_shaped(#[trigger] final(table)@[i].classes@),
{
    add_scale(table, "maj_harm", vec![0, 2, 4, 5, 7, 8, 11]);
    add_scale(table, "maj_hungarian", vec![0, 3, 4, 6, 7, 9, 10]);
    add_scale(table, "maj_locrian", vec![0, 2, 4, 5, 6, 8, 10]);
    add_scale(table, "maj_neapolitan", vec![0, 1, 3, 5, 7, 9, 11]);
    add_scale(table, "maj_pent", vec![0, 2, 4, 7, 9]);
    add_scale(table, "min_harm", vec![0, 2, 3, 5, 7, 8, 11]);
    add_scale(table, "min_hungarian", vec![0, 2, 3, 6, 7, 8, 11]);
    add_scale(table, "min_melodic", vec![0, 2, 3, 5, 7, 9, 11]);
    add_scale(table, "min_nat", vec![0, 2, 3, 5, 7, 8, 10]);
    add_scale(table, "min_neapolitan", vec![0, 1, 3, 5, 7, 8, 11]);
    add_scale(table, "min_pent", vec![0, 3, 5, 7, 10]);
    assert(table.deep_view() =~= old(table).deep_view() + scale_table_third());
}

fn add_fourth_scales(table: &mut Vec<NamedScale>)
    requires
        forall|i: int| 0 <= i < old(table).len() ==> scale_shaped(#[trigger] old(table)@[i].classes@),
    ensures
        final(table).deep_view() == old(table).deep_view() + scale_table_fourth(),
        forall|i: int| 0 <= i < final(table).len() ==> scale_shaped(#[trigger] final(table)@[i].classes@),
{
    add_scale(table, "mixolydian", vec![0, 2, 4, 5, 7, 9, 10]);
    add_scale(table, "octatonic", vec![0, 2, 3, 5, 6, 8, 9, 11]);
    add_scale(table, "persian", vec![0, 1, 4, 5, 6, 8, 11]);
    add_scale(table, "phrygian", vec![0, 1, 3, 5, 7, 8, 10]);
    add_scale(table, "phrygian_dominant", vec![0, 1, 4, 5, 7, 8, 10]);
    add_scale(table, "prometheus", vec![0, 2, 4, 6, 9, 10]);
    add_scale(table, "tritone", vec![0, 1, 4, 6, 7, 10]);
    add_scale(table, "tritone_semi2", vec![0, 1, 2, 6, 7, 8]);
    add_scale(table, "ukrainian_dorian", vec![0, 2, 3, 6, 7, 9, 10]);
    add_scale(table, "whole_tone", vec![0, 2, 4, 6, 8, 10]);
    add_scale(table, "yo", vec![0, 2, 5, 7, 9]);
    assert(table.deep_view() =~= old(table).deep_view() + scale_table_fourth());
}

/// The scales that come with the library, each under its name. Every one of
/// them starts at the key note, rises, and stays within the octave.
pub fn scales() -> (table: Vec<NamedScale>)
    ensures
        table.deep_view() == scale_table(),
        forall|i: int| 0 <= i < table.len() ==> scale_shaped(#[trigger] table@[i].classes@),
{
    let mut table: Vec<NamedScale> = Vec::new();
    assert(table.deep_view() =~= Seq::empty());
    add_first_scales(&mut table);
    add_second_scales(&mut table);
    add_third_scales(&mut table);
    add_fourth_scales(&mut table);
    assert(table.deep_view() =~= scale_table());
    table
}

/// The scale called `name`, if the library has one.
pub fn scale_named(name: &str) -> (r: Option<Vec<u8>>)
    ensures
        r is Some == scale_lookup(scale_table(), name@) is Some,
        r is Some ==> r->0@ == scale_lookup(scale_table(), name@)->0 && scale_shaped(r->0@),
{
    let wanted = name.to_owned();
    let mut table = scales();
    while table.len() > 0
        invariant
            wanted@ == name@,
            scale_lookup(scale_table(), name@) == scale_lookup(table.deep_view(), name@),
            forall|i: int| 0 <= i < table.len() ==> scale_shaped(#[trigger] table@[i].classes@),
        decreases table.len(),
    {
        let ghost before = table.deep_view();
        let entry = table.pop().unwrap();
        assert(table.deep_view() =~= before.drop_last());
        assert(before.last() == entry.deep_view());
        if entry.name == wanted {
            return Some(entry.classes);
        }
    }
    None
}

} // verus!
