//! The coordinator: once per audio buffer it takes at most one command from the
//! queue, keeps the schedules in step with the tempo, and gathers the events of
//! the buffer.
use vstd::prelude::*;
use rtrb::Consumer;
use crate::controller::{Command, CommandView};
use crate::pattern::{NamedPattern, NamedPatternView, Pattern, PatternView};
use crate::playback::{on_channels, timed_before, voices_on_channels};
use crate::precise::{note_off_now, ActiveVoice, PreciseEventType, PrecisePattern, ScheduleView};

verus! {

/// `rtrb::Consumer`, the reading end of the command queue. Nothing is known of
/// what it holds: the writing end fills it from another thread.
#[verifier::external_type_specification]
#[verifier::external_body]
#[verifier::reject_recursive_types(T)]
pub struct ExConsumer<T>(rtrb::Consumer<T>);

/// `rtrb::Consumer::pop`: takes the oldest command out of the queue, or finds
/// the queue empty. Which of the two, and which command, is for the other
/// thread to decide, so nothing is claimed of the result.
#[verifier::external_body]
fn pop_command(queue: &mut Consumer<Command>) -> (r: Option<Command>) {
    match queue.pop() {
        Ok(command) => Some(command),
        Err(rtrb::PopError::Empty) => None,
    }
}

/// What the host tells the coordinator for one buffer. `sample_rate` is in Hz,
/// `tempo` in thousandths of a beat per minute.
#[derive(Clone, Copy, Debug, PartialEq, Eq)]
pub struct Context {
    pub playing: bool,
    pub pos_samples: i64,
    pub sample_rate: u32,
    pub tempo: u32,
}

/// How a cycle went.
#[derive(Clone, Copy, Debug, PartialEq, Eq)]
pub enum ProcessStatus {
    Normal,
    Error(&'static str),
}

/// A pattern under its name, with the schedule compiled from it.
#[derive(Debug, PartialEq, Eq)]
pub struct Track {
    pub name: String,
    pub pattern: Pattern,
    pub schedule: PrecisePattern,
}

/// A track as a mathematical value.
pub struct TrackView {
    pub name: Seq<char>,
    pub pattern: PatternView,
    pub schedule: ScheduleView,
}

impl DeepView for Track {
    type V = TrackView;

    open spec fn deep_view(&self) -> TrackView {
        TrackView { name: self.name@, pattern: self.pattern.deep_view(), schedule: self.schedule@ }
    }
}

/// The coordinator's state. The tracks stand in the order in which their names
/// were first started.
pub struct Code {
    pub commands_rx: Option<Consumer<Command>>,
    pub playing: bool,
    pub tracks: Vec<Track>,
    pub tempo_prev_cycle: u32,
}

/// The coordinator's state as a mathematical value, the queue left out.
pub struct CodeView {
    pub playing: bool,
    pub tracks: Seq<TrackView>,
    pub tempo_prev_cycle: u32,
}

impl DeepView for Code {
    type V = CodeView;

    open spec fn deep_view(&self) -> CodeView {
        CodeView {
            playing: self.playing,
            tracks: self.tracks.deep_view(),
            tempo_prev_cycle: self.tempo_prev_cycle,
        }
    }
}

/// What a step leaves: the tracks, the events it gave out, and whether
/// something in it could not be done.
pub struct Outcome {
    pub tracks: Seq<TrackView>,
    pub events: Seq<PreciseEventType>,
    pub failed: bool,
}

/// A note-off, timed zero, for each of the voices.
pub open spec fn offs(voices: Seq<ActiveVoice>) -> Seq<PreciseEventType> {
    voices.map_values(|a: ActiveVoice| PreciseEventType::Note(note_off_now(a)))
}

/// The note-offs of all tracks, track by track.
pub open spec fn all_offs(tracks: Seq<TrackView>) -> Seq<PreciseEventType>
    decreases tracks.len(),
{
    if tracks.len() == 0 {
        Seq::empty()
    } else {
        all_offs(tracks.drop_last()) + offs(tracks.last().schedule.voices)
    }
}

/// The track with its voices forgotten.
pub open spec fn silenced(t: TrackView) -> TrackView {
    TrackView { schedule: ScheduleView { voices: Seq::empty(), ..t.schedule }, ..t }
}

/// The track stopped: it does not play, and neither its voices nor the
/// note-offs that were to come are kept.
pub open spec fn stopped(t: TrackView) -> TrackView {
    TrackView {
        schedule: ScheduleView {
            playing: false,
            voices: Seq::empty(),
            future: Map::empty(),
            ..t.schedule
        },
        ..t
    }
}

/// The place of the first track called `name`.
pub open spec fn index_of(tracks: Seq<TrackView>, name: Seq<char>) -> Option<int>
    decreases tracks.len(),
{
    if tracks.len() == 0 {
        None
    } else {
        match index_of(tracks.drop_last(), name) {
            Some(i) => Some(i),
            None => if tracks.last().name == name {
                Some(tracks.len() - 1)
            } else {
                None
            },
        }
    }
}

/// A first place among the first tracks is the first place among all.
pub proof fn lemma_index_of_prefix(tracks: Seq<TrackView>, name: Seq<char>, n: int)
    requires
        0 <= n <= tracks.len(),
        index_of(tracks.subrange(0, n), name) is Some,
    ensures
        index_of(tracks, name) == index_of(tracks.subrange(0, n), name),
    decreases tracks.len(),
{
    if n == tracks.len() {
        assert(tracks.subrange(0, n) =~= tracks);
    } else {
        assert(tracks.drop_last().subrange(0, n) =~= tracks.subrange(0, n));
        lemma_index_of_prefix(tracks.drop_last(), name, n);
    }
}

/// A place that `index_of` gives lies among the tracks and holds the name.
pub proof fn lemma_index_of_found(tracks: Seq<TrackView>, name: Seq<char>)
    requires
        index_of(tracks, name) is Some,
    ensures
        0 <= index_of(tracks, name)->0 < tracks.len(),
        tracks[index_of(tracks, name)->0].name == name,
    decreases tracks.len(),
{
    if tracks.len() > 0 && index_of(tracks.drop_last(), name) is Some {
        lemma_index_of_found(tracks.drop_last(), name);
    }
}

/// The pattern that a named pattern holds.
pub open spec fn pattern_of(np: NamedPatternView) -> PatternView {
    PatternView { channel: np.channel, events: np.events, length_bars: np.length_bars }
}

/// What a command does to the tracks. Starting a pattern compiles it and puts
/// it under its name, in place of what stood there, whose voices are ended;
/// it fails, and changes nothing, where the pattern does not compile. Stopping
/// a name stops its track and ends its voices; clearing a name ends the voices
/// and takes the track away. A name that no track has changes nothing.
pub open spec fn applied(
    tracks: Seq<TrackView>,
    command: Option<CommandView>,
    sample_rate: u32,
    tempo: u32,
) -> Outcome {
    match command {
        None => Outcome { tracks: tracks, events: Seq::empty(), failed: false },
        Some(CommandView::PatternStart(np)) => {
            let pattern = pattern_of(np);
            if !pattern.compilable(sample_rate, tempo) {
                Outcome { tracks: tracks, events: Seq::empty(), failed: true }
            } else {
                let track = TrackView {
                    name: np.name,
                    pattern: pattern,
                    schedule: pattern.compiled(sample_rate, tempo, true),
                };
                match index_of(tracks, np.name) {
                    Some(i) => Outcome {
                        tracks: tracks.update(i, track),
                        events: offs(tracks[i].schedule.voices),
                        failed: false,
                    },
                    None => Outcome {
                        tracks: tracks.push(track),
                        events: Seq::empty(),
                        failed: false,
                    },
                }
            }
        },
        Some(CommandView::PatternStop(name)) => match index_of(tracks, name) {
            Some(i) => Outcome {
                tracks: tracks.update(i, stopped(tracks[i])),
                events: offs(tracks[i].schedule.voices),
                failed: false,
            },
            None => Outcome { tracks: tracks, events: Seq::empty(), failed: false },
        },
        Some(CommandView::PatternStopAll) => Outcome {
            tracks: tracks.map_values(|t: TrackView| stopped(t)),
            events: all_offs(tracks),
            failed: false,
        },
        Some(CommandView::PatternClear(name)) => match index_of(tracks, name) {
            Some(i) => Outcome {
                tracks: tracks.remove(i),
                events: offs(tracks[i].schedule.voices),
                failed: false,
            },
            None => Outcome { tracks: tracks, events: Seq::empty(), failed: false },
        },
        Some(CommandView::PatternClearAll) => Outcome {
            tracks: Seq::empty(),
            events: all_offs(tracks),
            failed: false,
        },
    }
}

/// The track compiled anew for a tempo, playing as it played; the track as it
/// is where its pattern does not compile.
pub open spec fn retimed_track(t: TrackView, sample_rate: u32, tempo: u32) -> TrackView {
    if t.pattern.compilable(sample_rate, tempo) {
        TrackView {
            schedule: t.pattern.compiled(sample_rate, tempo, t.schedule.playing),
            ..t
        }
    } else {
        t
    }
}

/// The note-offs that compiling anew gives out: those of each track whose
/// schedule is replaced.
pub open spec fn retimed_offs(tracks: Seq<TrackView>, sample_rate: u32, tempo: u32) -> Seq<
    PreciseEventType,
>
    decreases tracks.len(),
{
    if tracks.len() == 0 {
        Seq::empty()
    } else {
        retimed_offs(tracks.drop_last(), sample_rate, tempo) + (if tracks.last().pattern.compilable(
            sample_rate,
            tempo,
        ) {
            offs(tracks.last().schedule.voices)
        } else {
            Seq::empty()
        })
    }
}

/// Every schedule compiled anew for a tempo.
pub open spec fn recomputed(tracks: Seq<TrackView>, sample_rate: u32, tempo: u32) -> Outcome {
    Outcome {
        tracks: tracks.map_values(|t: TrackView| retimed_track(t, sample_rate, tempo)),
        events: retimed_offs(tracks, sample_rate, tempo),
        failed: exists|i: int|
            0 <= i < tracks.len() && !(#[trigger] tracks[i]).pattern.compilable(sample_rate, tempo),
    }
}

/// The track after one buffer.
pub open spec fn played_track(t: TrackView, pos: i64, buf_size: usize) -> TrackView {
    if t.schedule.playing && t.schedule.length_samples > 0 {
        TrackView {
            schedule: t.schedule.with(
                t.schedule.run(t.schedule.playback(), pos, buf_size as int, buf_size),
            ),
            ..t
        }
    } else {
        t
    }
}

/// The events that a track gives out for one buffer.
pub open spec fn track_events(t: TrackView, pos: i64, buf_size: usize) -> Seq<PreciseEventType> {
    if t.schedule.playing && t.schedule.length_samples > 0 {
        t.schedule.run(t.schedule.playback(), pos, buf_size as int, buf_size).out
    } else {
        Seq::empty()
    }
}

/// The events of all tracks for one buffer, track by track.
pub open spec fn all_events(tracks: Seq<TrackView>, pos: i64, buf_size: usize) -> Seq<
    PreciseEventType,
>
    decreases tracks.len(),
{
    if tracks.len() == 0 {
        Seq::empty()
    } else {
        all_events(tracks.drop_last(), pos, buf_size) + track_events(tracks.last(), pos, buf_size)
    }
}

/// What one cycle leaves.
pub struct Cycle {
    pub code: CodeView,
    pub status: ProcessStatus,
    pub events: Seq<PreciseEventType>,
}

/// The status of a cycle in which something could not be done.
pub open spec fn failure() -> ProcessStatus {
    ProcessStatus::Error("processing commands")
}

impl CodeView {
    /// One cycle with the host playing: the command is applied; if the tempo has
    /// changed, every schedule is compiled anew; then every track gives out
    /// its events for the buffer. A command that fails ends the cycle with what
    /// has been given out so far.
    pub open spec fn played(
        self,
        command: Option<CommandView>,
        buf_size: usize,
        ctx: Context,
    ) -> Cycle {
        let a = applied(self.tracks, command, ctx.sample_rate, ctx.tempo);
        if a.failed {
            Cycle {
                code: CodeView { playing: true, tracks: a.tracks, tempo_prev_cycle: ctx.tempo },
                status: failure(),
                events: a.events,
            }
        } else {
            let r = if ctx.tempo != self.tempo_prev_cycle {
                recomputed(a.tracks, ctx.sample_rate, ctx.tempo)
            } else {
                Outcome { tracks: a.tracks, events: Seq::empty(), failed: false }
            };
            Cycle {
                code: CodeView {
                    playing: true,
                    tracks: r.tracks.map_values(
                        |t: TrackView| played_track(t, ctx.pos_samples, buf_size),
                    ),
                    tempo_prev_cycle: ctx.tempo,
                },
                status: if r.failed {
                    failure()
                } else {
                    ProcessStatus::Normal
                },
                events: a.events + r.events + all_events(r.tracks, ctx.pos_samples, buf_size),
            }
        }
    }

    /// One cycle with the host stopped: where the coordinator was playing, every
    /// voice is ended; the queue is left alone.
    pub open spec fn halted(self, ctx: Context) -> Cycle {
        if self.playing {
            Cycle {
                code: CodeView {
                    playing: false,
                    tracks: self.tracks.map_values(|t: TrackView| silenced(t)),
                    tempo_prev_cycle: ctx.tempo,
                },
                status: ProcessStatus::Normal,
                events: all_offs(self.tracks),
            }
        } else {
            Cycle {
                code: CodeView { tempo_prev_cycle: ctx.tempo, ..self },
                status: ProcessStatus::Normal,
                events: Seq::empty(),
            }
        }
    }
}

/// The place of the first track called `name`.
fn find_track(tracks: &Vec<Track>, name: &String) -> (r: Option<usize>)
    ensures
        r is Some == index_of(tracks.deep_view(), name@) is Some,
        r is Some ==> r->0 == index_of(tracks.deep_view(), name@)->0 && r->0 < tracks.len(),
{
    let ghost views = tracks.deep_view();
    let mut i: usize = 0;
    assert(views.subrange(0, 0) =~= Seq::empty());
    while i < tracks.len()
        invariant
            i <= tracks.len(),
            views == tracks.deep_view(),
            index_of(views.subrange(0, i as int), name@) is None,
        decreases tracks.len() - i,
    {
        proof {
            assert(views.subrange(0, i + 1).drop_last() =~= views.subrange(0, i as int));
            assert(views.subrange(0, i + 1).last().name == tracks@[i as int].name@);
        }
        if tracks[i].name == *name {
            proof {
                lemma_index_of_prefix(views, name@, i + 1);
            }
            return Some(i);
        }
        i += 1;
    }
    assert(views.subrange(0, i as int) =~= views);
    None
}

/// Ends the voices of a schedule: their note-offs go behind `events`.
fn push_offs(schedule: &mut PrecisePattern, events: &mut Vec<PreciseEventType>)
    ensures
        final(events)@ == old(events)@ + offs(old(schedule)@.voices),
        final(schedule)@ == (ScheduleView { voices: Seq::empty(), ..old(schedule)@ }),
{
    let notes = schedule.get_notes_playing();
    let ghost voices = old(schedule)@.voices;
    let mut i: usize = 0;
    assert(old(events)@ + offs(voices.subrange(0, 0)) =~= old(events)@);
    while i < notes.len()
        invariant
            i <= notes.len(),
            notes@ == voices.map_values(|a: ActiveVoice| note_off_now(a)),
            events@ == old(events)@ + offs(voices.subrange(0, i as int)),
        decreases notes.len() - i,
    {
        events.push(PreciseEventType::Note(notes[i]));
        assert(events@ =~= old(events)@ + offs(voices.subrange(0, i + 1)));
        i += 1;
    }
    assert(voices.subrange(0, i as int) =~= voices);
}

impl Default for Code {
    /// A coordinator with no track and no queue, not playing.
    fn default() -> (r: Code)
        ensures
            r.deep_view() == (CodeView {
                playing: false,
                tracks: Seq::empty(),
                tempo_prev_cycle: 0,
            }),
            r.commands_rx is None,
    {
        let r = Code { commands_rx: None, playing: false, tracks: Vec::new(), tempo_prev_cycle: 0 };
        assert(r.tracks.deep_view() =~= Seq::empty());
        r
    }
}

impl Code {
    /// Ends every voice of every track.
    fn turn_all_notes_off(&mut self, events: &mut Vec<PreciseEventType>)
        ensures
            final(self).tracks.deep_view() == old(self).tracks.deep_view().map_values(
                |t: TrackView| silenced(t),
            ),
            final(events)@ == old(events)@ + all_offs(old(self).tracks.deep_view()),
            final(self).playing == old(self).playing,
            final(self).tempo_prev_cycle == old(self).tempo_prev_cycle,
    {
        let ghost before = self.tracks.deep_view();
        let mut i: usize = 0;
        assert(before.subrange(0, 0) =~= Seq::empty());
        assert(events@ + all_offs(before.subrange(0, 0)) =~= events@);
        while i < self.tracks.len()
            invariant
                i <= self.tracks.len(),
                self.tracks.len() == before.len(),
                self.playing == old(self).playing,
                self.tempo_prev_cycle == old(self).tempo_prev_cycle,
                forall|j: int| 0 <= j < i ==> #[trigger] self.tracks.deep_view()[j] == silenced(before[j]),
                forall|j: int|
                    i <= j < before.len() ==> #[trigger] self.tracks.deep_view()[j] == before[j],
                events@ == old(events)@ + all_offs(before.subrange(0, i as int)),
            decreases self.tracks.len() - i,
        {
            proof {
                assert(before.subrange(0, i + 1).drop_last() =~= before.subrange(0, i as int));
                assert(self.tracks.deep_view()[i as int] == before[i as int]);
            }
            let ghost prev = self.tracks@;
            let ghost prev_view = self.tracks.deep_view();
            push_offs(&mut self.tracks[i].schedule, events);
            proof {
                assert(self.tracks@.len() == prev.len());
                assert(forall|j: int| 0 <= j < prev.len() && j != i ==> self.tracks@[j] == prev[j]);
                assert(self.tracks@[i as int].name == prev[i as int].name);
                assert(self.tracks@[i as int].pattern == prev[i as int].pattern);
                assert(self.tracks.deep_view()[i as int] == silenced(before[i as int]));
                assert forall|j: int| 0 <= j < i + 1 implies #[trigger] self.tracks.deep_view()[j]
                    == silenced(before[j]) by {
                    if j < i {
                        assert(self.tracks@[j] == prev[j]);
                        assert(prev_view[j] == prev[j].deep_view());
                    }
                }
                assert forall|j: int| i + 1 <= j < before.len() implies #[trigger] self.tracks.deep_view()[j]
                    == before[j] by {
                    assert(self.tracks@[j] == prev[j]);
                    assert(prev_view[j] == prev[j].deep_view());
                }
                assert(events@ =~= old(events)@ + all_offs(before.subrange(0, i + 1)));
            }
            i += 1;
        }
        assert(self.tracks.deep_view() =~= before.map_values(|t: TrackView| silenced(t)));
        assert(before.subrange(0, i as int) =~= before);
    }
}

/// Stops a track and ends its voices.
fn stop_track(track: &mut Track, events: &mut Vec<PreciseEventType>)
    ensures
        final(track).deep_view() == stopped(old(track).deep_view()),
        final(events)@ == old(events)@ + offs(old(track).schedule@.voices),
{
    track.schedule.stop();
    push_offs(&mut track.schedule, events);
}

/// Compiles a track anew for a tempo and ends the voices of the schedule that
/// it had; leaves the track as it is, and says so, where its pattern does not
/// compile.
fn retime_track(track: &mut Track, sample_rate: u32, tempo: u32, events: &mut Vec<PreciseEventType>) -> (ok:
    bool)
    ensures
        ok == old(track).deep_view().pattern.compilable(sample_rate, tempo),
        final(track).deep_view() == retimed_track(old(track).deep_view(), sample_rate, tempo),
        final(events)@ == old(events)@ + (if ok {
            offs(old(track).schedule@.voices)
        } else {
            Seq::empty()
        }),
{
    match PrecisePattern::compile(&track.pattern, sample_rate, tempo, track.schedule.playing) {
        Some(schedule) => {
            push_offs(&mut track.schedule, events);
            track.schedule = schedule;
            true
        },
        None => {
            assert(events@ + Seq::<PreciseEventType>::empty() =~= events@);
            false
        },
    }
}

/// Lets a track give out its events for one buffer.
fn play_track(track: &mut Track, pos: i64, buf_size: usize, events: &mut Vec<PreciseEventType>)
    requires
        buf_size <= u32::MAX,
        buf_size > 0 ==> timed_before(old(events)@, buf_size as int),
    ensures
        final(track).deep_view() == played_track(old(track).deep_view(), pos, buf_size),
        final(events)@ == old(events)@ + track_events(old(track).deep_view(), pos, buf_size),
        buf_size > 0 ==> timed_before(final(events)@, buf_size as int),
{
    let mut out = track.schedule.get_events(pos, buf_size);
    events.append(&mut out);
}

impl Code {
    /// Stops every track and ends its voices.
    fn stop_all(&mut self, events: &mut Vec<PreciseEventType>)
        ensures
            final(self).tracks.deep_view() == old(self).tracks.deep_view().map_values(
                |t: TrackView| stopped(t),
            ),
            final(events)@ == old(events)@ + all_offs(old(self).tracks.deep_view()),
            final(self).playing == old(self).playing,
            final(self).tempo_prev_cycle == old(self).tempo_prev_cycle,
    {
        let ghost before = self.tracks.deep_view();
        let mut i: usize = 0;
        assert(before.subrange(0, 0) =~= Seq::empty());
        assert(events@ + all_offs(before.subrange(0, 0)) =~= events@);
        while i < self.tracks.len()
            invariant
                i <= self.tracks.len(),
                self.tracks.len() == before.len(),
                self.playing == old(self).playing,
                self.tempo_prev_cycle == old(self).tempo_prev_cycle,
                forall|j: int| 0 <= j < i ==> #[trigger] self.tracks.deep_view()[j] == stopped(before[j]),
                forall|j: int|
                    i <= j < before.len() ==> #[trigger] self.tracks.deep_view()[j] == before[j],
                events@ == old(events)@ + all_offs(before.subrange(0, i as int)),
            decreases self.tracks.len() - i,
        {
            let ghost prev = self.tracks@;
            let ghost prev_view = self.tracks.deep_view();
            proof {
                assert(before.subrange(0, i + 1).drop_last() =~= before.subrange(0, i as int));
                assert(prev_view[i as int] == before[i as int]);
            }
            stop_track(&mut self.tracks[i], events);
            proof {
                assert forall|j: int| 0 <= j < i + 1 implies #[trigger] self.tracks.deep_view()[j]
                    == stopped(before[j]) by {
                    if j < i {
                        assert(self.tracks@[j] == prev[j]);
                        assert(prev_view[j] == prev[j].deep_view());
                    }
                }
                assert forall|j: int| i + 1 <= j < before.len() implies #[trigger] self.tracks.deep_view()[j]
                    == before[j] by {
                    assert(self.tracks@[j] == prev[j]);
                    assert(prev_view[j] == prev[j].deep_view());
                }
                assert(events@ =~= old(events)@ + all_offs(before.subrange(0, i + 1)));
            }
            i += 1;
        }
        assert(self.tracks.deep_view() =~= before.map_values(|t: TrackView| stopped(t)));
        assert(before.subrange(0, i as int) =~= before);
    }

    /// Compiles every schedule anew for the tempo of `ctx`; says whether all of
    /// them compiled.
    fn recompute_patterns(&mut self, ctx: &Context, events: &mut Vec<PreciseEventType>) -> (ok: bool)
        ensures
            final(self).tracks.deep_view() == recomputed(
                old(self).tracks.deep_view(),
                ctx.sample_rate,
                ctx.tempo,
            ).tracks,
            final(events)@ == old(events)@ + recomputed(
                old(self).tracks.deep_view(),
                ctx.sample_rate,
                ctx.tempo,
            ).events,
            ok == !recomputed(old(self).tracks.deep_view(), ctx.sample_rate, ctx.tempo).failed,
            final(self).playing == old(self).playing,
            final(self).tempo_prev_cycle == old(self).tempo_prev_cycle,
    {
        let ghost before = self.tracks.deep_view();
        let mut ok = true;
        let mut i: usize = 0;
        assert(before.subrange(0, 0) =~= Seq::empty());
        assert(events@ + retimed_offs(before.subrange(0, 0), ctx.sample_rate, ctx.tempo) =~= events@);
        while i < self.tracks.len()
            invariant
                i <= self.tracks.len(),
                self.tracks.len() == before.len(),
                self.playing == old(self).playing,
                self.tempo_prev_cycle == old(self).tempo_prev_cycle,
                forall|j: int|
                    0 <= j < i ==> #[trigger] self.tracks.deep_view()[j] == retimed_track(
                        before[j],
                        ctx.sample_rate,
                        ctx.tempo,
                    ),
                forall|j: int|
                    i <= j < before.len() ==> #[trigger] self.tracks.deep_view()[j] == before[j],
                events@ == old(events)@ + retimed_offs(
                    before.subrange(0, i as int),
                    ctx.sample_rate,
                    ctx.tempo,
                ),
                ok == forall|j: int|
                    0 <= j < i ==> (#[trigger] before[j]).pattern.compilable(
                        ctx.sample_rate,
                        ctx.tempo,
                    ),
            decreases self.tracks.len() - i,
        {
            let ghost prev = self.tracks@;
            let ghost prev_view = self.tracks.deep_view();
            proof {
                assert(before.subrange(0, i + 1).drop_last() =~= before.subrange(0, i as int));
                assert(prev_view[i as int] == before[i as int]);
            }
            let compiled = retime_track(&mut self.tracks[i], ctx.sample_rate, ctx.tempo, events);
            if !compiled {
                ok = false;
            }
            proof {
                assert forall|j: int| 0 <= j < i + 1 implies #[trigger] self.tracks.deep_view()[j]
                    == retimed_track(before[j], ctx.sample_rate, ctx.tempo) by {
                    if j < i {
                        assert(self.tracks@[j] == prev[j]);
                        assert(prev_view[j] == prev[j].deep_view());
                    }
                }
                assert forall|j: int| i + 1 <= j < before.len() implies #[trigger] self.tracks.deep_view()[j]
                    == before[j] by {
                    assert(self.tracks@[j] == prev[j]);
                    assert(prev_view[j] == prev[j].deep_view());
                }
                assert(events@ =~= old(events)@ + retimed_offs(
                    before.subrange(0, i + 1),
                    ctx.sample_rate,
                    ctx.tempo,
                ));
            }
            i += 1;
        }
        assert(self.tracks.deep_view() =~= before.map_values(
            |t: TrackView| retimed_track(t, ctx.sample_rate, ctx.tempo),
        ));
        assert(before.subrange(0, i as int) =~= before);
        ok
    }

    /// The events of all tracks for one buffer, track by track, behind `events`.
    fn get_events(&mut self, pos_samples: i64, buf_size: usize, events: &mut Vec<PreciseEventType>)
        requires
            buf_size <= u32::MAX,
            buf_size > 0 ==> timed_before(old(events)@, buf_size as int),
        ensures
            final(self).tracks.deep_view() == old(self).tracks.deep_view().map_values(
                |t: TrackView| played_track(t, pos_samples, buf_size),
            ),
            final(events)@ == old(events)@ + all_events(
                old(self).tracks.deep_view(),
                pos_samples,
                buf_size,
            ),
            buf_size > 0 ==> timed_before(final(events)@, buf_size as int),
            final(self).playing == old(self).playing,
            final(self).tempo_prev_cycle == old(self).tempo_prev_cycle,
    {
        let ghost before = self.tracks.deep_view();
        let mut i: usize = 0;
        assert(before.subrange(0, 0) =~= Seq::empty());
        assert(events@ + all_events(before.subrange(0, 0), pos_samples, buf_size) =~= events@);
        while i < self.tracks.len()
            invariant
                i <= self.tracks.len(),
                self.tracks.len() == before.len(),
                buf_size <= u32::MAX,
                self.playing == old(self).playing,
                self.tempo_prev_cycle == old(self).tempo_prev_cycle,
                forall|j: int|
                    0 <= j < i ==> #[trigger] self.tracks.deep_view()[j] == played_track(
                        before[j],
                        pos_samples,
                        buf_size,
                    ),
                forall|j: int|
                    i <= j < before.len() ==> #[trigger] self.tracks.deep_view()[j] == before[j],
                events@ == old(events)@ + all_events(
                    before.subrange(0, i as int),
                    pos_samples,
                    buf_size,
                ),
                buf_size > 0 ==> timed_before(events@, buf_size as int),
            decreases self.tracks.len() - i,
        {
            let ghost prev = self.tracks@;
            let ghost prev_view = self.tracks.deep_view();
            proof {
                assert(before.subrange(0, i + 1).drop_last() =~= before.subrange(0, i as int));
                assert(prev_view[i as int] == before[i as int]);
            }
            play_track(&mut self.tracks[i], pos_samples, buf_size, events);
            proof {
                assert forall|j: int| 0 <= j < i + 1 implies #[trigger] self.tracks.deep_view()[j]
                    == played_track(before[j], pos_samples, buf_size) by {
                    if j < i {
                        assert(self.tracks@[j] == prev[j]);
                        assert(prev_view[j] == prev[j].deep_view());
                    }
                }
                assert forall|j: int| i + 1 <= j < before.len() implies #[trigger] self.tracks.deep_view()[j]
                    == before[j] by {
                    assert(self.tracks@[j] == prev[j]);
                    assert(prev_view[j] == prev[j].deep_view());
                }
                assert(events@ =~= old(events)@ + all_events(
                    before.subrange(0, i + 1),
                    pos_samples,
                    buf_size,
                ));
            }
            i += 1;
        }
        assert(self.tracks.deep_view() =~= before.map_values(
            |t: TrackView| played_track(t, pos_samples, buf_size),
        ));
        assert(before.subrange(0, i as int) =~= before);
    }
}

impl Code {
    /// Compiles a pattern and puts it under its name, in place of the track that
    /// had the name, whose voices are ended. Fails, and changes nothing, where
    /// the pattern does not compile.
    fn start_pattern(
        &mut self,
        ctx: &Context,
        named_pattern: NamedPattern,
        events: &mut Vec<PreciseEventType>,
    ) -> (r: Result<(), ()>)
        ensures
            ({
                let o = applied(
                    old(self).tracks.deep_view(),
                    Some(CommandView::PatternStart(named_pattern.deep_view())),
                    ctx.sample_rate,
                    ctx.tempo,
                );
                &&& final(self).tracks.deep_view() == o.tracks
                &&& final(events)@ == old(events)@ + o.events
                &&& r is Err == o.failed
            }),
            final(self).playing == old(self).playing,
            final(self).tempo_prev_cycle == old(self).tempo_prev_cycle,
    {
        let ghost before = self.tracks.deep_view();
        let ghost npv = named_pattern.deep_view();
        let NamedPattern { channel, events: pattern_events, length_bars, name } = named_pattern;
        let pattern = Pattern { channel: channel, events: pattern_events, length_bars: length_bars };
        assert(pattern.deep_view() == pattern_of(npv));
        assert(events@ + Seq::<PreciseEventType>::empty() =~= events@);
        let schedule = match PrecisePattern::compile(&pattern, ctx.sample_rate, ctx.tempo, true) {
            Some(s) => s,
            None => {
                return Err(());
            },
        };
        match find_track(&self.tracks, &name) {
            Some(i) => {
                let ghost prev = self.tracks@;
                push_offs(&mut self.tracks[i].schedule, events);
                self.tracks[i] = Track { name: name, pattern: pattern, schedule: schedule };
                proof {
                    lemma_index_of_found(before, npv.name);
                    assert(self.tracks.deep_view() =~= before.update(
                        i as int,
                        TrackView {
                            name: npv.name,
                            pattern: pattern_of(npv),
                            schedule: pattern_of(npv).compiled(ctx.sample_rate, ctx.tempo, true),
                        },
                    ));
                }
            },
            None => {
                let track = Track { name: name, pattern: pattern, schedule: schedule };
                self.tracks.push(track);
                assert(self.tracks.deep_view() =~= before.push(
                    TrackView {
                        name: npv.name,
                        pattern: pattern_of(npv),
                        schedule: pattern_of(npv).compiled(ctx.sample_rate, ctx.tempo, true),
                    },
                ));
            },
        }
        Ok(())
    }

    /// Stops the track called `name` and ends its voices.
    fn stop_pattern(&mut self, name: &String, events: &mut Vec<PreciseEventType>)
        ensures
            ({
                let o = applied(
                    old(self).tracks.deep_view(),
                    Some(CommandView::PatternStop(name@)),
                    0,
                    0,
                );
                &&& final(self).tracks.deep_view() == o.tracks
                &&& final(events)@ == old(events)@ + o.events
            }),
            final(self).playing == old(self).playing,
            final(self).tempo_prev_cycle == old(self).tempo_prev_cycle,
    {
        let ghost before = self.tracks.deep_view();
        assert(events@ + Seq::<PreciseEventType>::empty() =~= events@);
        match find_track(&self.tracks, name) {
            Some(i) => {
                stop_track(&mut self.tracks[i], events);
                proof {
                    assert(self.tracks.deep_view() =~= before.update(
                        i as int,
                        stopped(before[i as int]),
                    ));
                }
            },
            None => {},
        }
    }

    /// Ends the voices of the track called `name` and takes the track away.
    fn clear_pattern(&mut self, name: &String, events: &mut Vec<PreciseEventType>)
        ensures
            ({
                let o = applied(
                    old(self).tracks.deep_view(),
                    Some(CommandView::PatternClear(name@)),
                    0,
                    0,
                );
                &&& final(self).tracks.deep_view() == o.tracks
                &&& final(events)@ == old(events)@ + o.events
            }),
            final(self).playing == old(self).playing,
            final(self).tempo_prev_cycle == old(self).tempo_prev_cycle,
    {
        let ghost before = self.tracks.deep_view();
        assert(events@ + Seq::<PreciseEventType>::empty() =~= events@);
        match find_track(&self.tracks, name) {
            Some(i) => {
                let mut track = self.tracks.remove(i);
                push_offs(&mut track.schedule, events);
                proof {
                    assert(self.tracks.deep_view() =~= before.remove(i as int));
                }
            },
            None => {},
        }
    }

    /// Applies the command that came out of the queue, if one did.
    fn process_commands(
        &mut self,
        command: Option<Command>,
        ctx: &Context,
        events: &mut Vec<PreciseEventType>,
    ) -> (r: Result<(), ()>)
        ensures
            ({
                let o = applied(
                    old(self).tracks.deep_view(),
                    command.deep_view(),
                    ctx.sample_rate,
                    ctx.tempo,
                );
                &&& final(self).tracks.deep_view() == o.tracks
                &&& final(events)@ == old(events)@ + o.events
                &&& r is Err == o.failed
            }),
            final(self).playing == old(self).playing,
            final(self).tempo_prev_cycle == old(self).tempo_prev_cycle,
    {
        match command {
            Some(Command::PatternStart(pattern)) => self.start_pattern(ctx, pattern, events),
            Some(Command::PatternStop(name)) => {
                self.stop_pattern(&name, events);
                Ok(())
            },
            Some(Command::PatternStopAll) => {
                self.stop_all(events);
                Ok(())
            },
            Some(Command::PatternClear(name)) => {
                self.clear_pattern(&name, events);
                Ok(())
            },
            Some(Command::PatternClearAll) => {
                self.turn_all_notes_off(events);
                self.tracks.clear();
                assert(self.tracks.deep_view() =~= Seq::empty());
                Ok(())
            },
            None => {
                assert(events@ + Seq::<PreciseEventType>::empty() =~= events@);
                Ok(())
            },
        }
    }

    /// One cycle with the host playing; see `CodeView::played`.
    fn play(
        &mut self,
        command: Option<Command>,
        buf_size: usize,
        ctx: &Context,
        events: &mut Vec<PreciseEventType>,
    ) -> (status: ProcessStatus)
        requires
            buf_size <= u32::MAX,
            old(events)@.len() == 0,
        ensures
            ({
                let c = old(self).deep_view().played(command.deep_view(), buf_size, *ctx);
                &&& final(self).tracks.deep_view() == c.code.tracks
                &&& final(events)@ == c.events
                &&& status == c.status
            }),
            buf_size > 0 ==> timed_before(final(events)@, buf_size as int),
            final(self).playing == old(self).playing,
            final(self).tempo_prev_cycle == old(self).tempo_prev_cycle,
    {
        let ghost a = applied(
            self.tracks.deep_view(),
            command.deep_view(),
            ctx.sample_rate,
            ctx.tempo,
        );
        if self.process_commands(command, ctx, events).is_err() {
            assert(events@ =~= a.events);
            proof {
                lemma_offs_timed(old(self).tracks.deep_view(), command.deep_view(), *ctx, buf_size);
            }
            return ProcessStatus::Error("processing commands");
        }
        let mut status = ProcessStatus::Normal;
        if ctx.tempo != self.tempo_prev_cycle {
            if !self.recompute_patterns(ctx, events) {
                status = ProcessStatus::Error("processing commands");
            }
        } else {
            assert(events@ + Seq::<PreciseEventType>::empty() =~= events@);
        }
        assert(events@ =~= a.events + (if ctx.tempo != old(self).tempo_prev_cycle {
            recomputed(a.tracks, ctx.sample_rate, ctx.tempo).events
        } else {
            Seq::empty()
        }));
        proof {
            lemma_offs_timed(old(self).tracks.deep_view(), command.deep_view(), *ctx, buf_size);
        }
        self.get_events(ctx.pos_samples, buf_size, events);
        status
    }
}

/// Note-offs are timed zero, which lies within any buffer that is not empty.
proof fn lemma_offs_timed(
    tracks: Seq<TrackView>,
    command: Option<CommandView>,
    ctx: Context,
    buf_size: usize,
)
    ensures
        buf_size > 0 ==> timed_before(
            applied(tracks, command, ctx.sample_rate, ctx.tempo).events,
            buf_size as int,
        ),
        buf_size > 0 ==> timed_before(
            applied(tracks, command, ctx.sample_rate, ctx.tempo).events + recomputed(
                applied(tracks, command, ctx.sample_rate, ctx.tempo).tracks,
                ctx.sample_rate,
                ctx.tempo,
            ).events,
            buf_size as int,
        ),
{
    let a = applied(tracks, command, ctx.sample_rate, ctx.tempo);
    lemma_all_offs_timed(tracks);
    lemma_retimed_offs_timed(a.tracks, ctx.sample_rate, ctx.tempo);
    match command {
        Some(CommandView::PatternStart(np)) => {
            if index_of(tracks, np.name) is Some {
                lemma_index_of_found(tracks, np.name);
            }
        },
        Some(CommandView::PatternStop(name)) => {
            if index_of(tracks, name) is Some {
                lemma_index_of_found(tracks, name);
            }
        },
        Some(CommandView::PatternClear(name)) => {
            if index_of(tracks, name) is Some {
                lemma_index_of_found(tracks, name);
            }
        },
        _ => {},
    }
}

proof fn lemma_all_offs_timed(tracks: Seq<TrackView>)
    ensures
        timed_before(all_offs(tracks), 1),
    decreases tracks.len(),
{
    if tracks.len() > 0 {
        lemma_all_offs_timed(tracks.drop_last());
    }
}

proof fn lemma_retimed_offs_timed(tracks: Seq<TrackView>, sample_rate: u32, tempo: u32)
    ensures
        timed_before(retimed_offs(tracks, sample_rate, tempo), 1),
    decreases tracks.len(),
{
    if tracks.len() > 0 {
        lemma_retimed_offs_timed(tracks.drop_last(), sample_rate, tempo);
    }
}

impl Code {
    /// The host has started: the coordinator plays from this cycle on.
    fn start(
        &mut self,
        command: Option<Command>,
        buf_size: usize,
        ctx: &Context,
        events: &mut Vec<PreciseEventType>,
    ) -> (status: ProcessStatus)
        requires
            buf_size <= u32::MAX,
            old(events)@.len() == 0,
        ensures
            ({
                let c = old(self).deep_view().played(command.deep_view(), buf_size, *ctx);
                &&& final(self).tracks.deep_view() == c.code.tracks
                &&& final(events)@ == c.events
                &&& status == c.status
            }),
            buf_size > 0 ==> timed_before(final(events)@, buf_size as int),
            final(self).playing,
            final(self).tempo_prev_cycle == old(self).tempo_prev_cycle,
    {
        self.playing = true;
        self.play(command, buf_size, ctx, events)
    }

    /// The host has stopped: every voice is ended.
    fn stop(&mut self, events: &mut Vec<PreciseEventType>) -> (status: ProcessStatus)
        requires
            old(events)@.len() == 0,
        ensures
            final(self).tracks.deep_view() == old(self).tracks.deep_view().map_values(
                |t: TrackView| silenced(t),
            ),
            final(events)@ == all_offs(old(self).tracks.deep_view()),
            status == ProcessStatus::Normal,
            !final(self).playing,
            final(self).tempo_prev_cycle == old(self).tempo_prev_cycle,
    {
        self.playing = false;
        self.turn_all_notes_off(events);
        assert(events@ =~= all_offs(old(self).tracks.deep_view()));
        ProcessStatus::Normal
    }

    /// One cycle, with `command` what came out of the queue for it.
    ///
    /// While the host plays, the command is applied, the schedules are compiled
    /// anew if the tempo has changed, and every track gives out its events for
    /// the buffer; the status is an error where the command or a schedule could
    /// not be compiled. When the host has stopped, every voice is ended and the
    /// command is not looked at. Every event is timed within the buffer, and
    /// as long as the schedules are on the sixteen channels, so is every event.
    pub fn cycle_with(&mut self, command: Option<Command>, buf_size: usize, ctx: &Context) -> (r: (
        ProcessStatus,
        Vec<PreciseEventType>,
    ))
        requires
            buf_size <= u32::MAX,
        ensures
            ({
                let c = if ctx.playing {
                    old(self).deep_view().played(command.deep_view(), buf_size, *ctx)
                } else {
                    old(self).deep_view().halted(*ctx)
                };
                &&& final(self).deep_view() == c.code
                &&& r.0 == c.status
                &&& r.1@ == c.events
            }),
            buf_size > 0 ==> timed_before(r.1@, buf_size as int),
            old(self).deep_view().on_channels() ==> final(self).deep_view().on_channels()
                && on_channels(r.1@),
    {
        proof {
            if self.deep_view().on_channels() {
                self.deep_view().lemma_cycle_channels(command.deep_view(), buf_size, *ctx);
            }
        }
        let mut events: Vec<PreciseEventType> = Vec::new();
        let mut status = ProcessStatus::Normal;
        if ctx.playing {
            if !self.playing {
                status = self.start(command, buf_size, ctx, &mut events);
            } else {
                status = self.play(command, buf_size, ctx, &mut events);
            }
        } else {
            if self.playing {
                status = self.stop(&mut events);
                proof {
                    lemma_all_offs_timed(old(self).tracks.deep_view());
                }
            }
        }
        self.tempo_prev_cycle = ctx.tempo;
        (status, events)
    }

    /// One cycle: while the host plays, at most one command is taken from the
    /// queue, and the cycle is what `cycle_with` makes of it.
    pub fn cycle(&mut self, buf_size: usize, ctx: &Context) -> (r: (
        ProcessStatus,
        Vec<PreciseEventType>,
    ))
        requires
            buf_size <= u32::MAX,
        ensures
            !ctx.playing ==> {
                let c = old(self).deep_view().halted(*ctx);
                &&& final(self).deep_view() == c.code
                &&& r.0 == c.status
                &&& r.1@ == c.events
            },
            ctx.playing ==> exists|command: Option<CommandView>|
                {
                    let c = #[trigger] old(self).deep_view().played(command, buf_size, *ctx);
                    &&& final(self).deep_view() == c.code
                    &&& r.0 == c.status
                    &&& r.1@ == c.events
                },
            buf_size > 0 ==> timed_before(r.1@, buf_size as int),
            old(self).deep_view().on_channels() ==> final(self).deep_view().on_channels()
                && on_channels(r.1@),
    {
        let command = if ctx.playing {
            match self.commands_rx.as_mut() {
                Some(queue) => pop_command(queue),
                None => None,
            }
        } else {
            None
        };
        let ghost taken = command.deep_view();
        let r = self.cycle_with(command, buf_size, ctx);
        proof {
            if ctx.playing {
                let c = old(self).deep_view().played(taken, buf_size, *ctx);
                assert(self.deep_view() == c.code);
            }
        }
        r
    }
}

/// Every track's schedule is on the sixteen channels.
pub open spec fn tracks_on_channels(tracks: Seq<TrackView>) -> bool {
    forall|i: int| 0 <= i < tracks.len() ==> (#[trigger] tracks[i]).schedule.on_channels()
}

proof fn lemma_offs_channels(voices: Seq<ActiveVoice>)
    requires
        voices_on_channels(voices),
    ensures
        on_channels(offs(voices)),
{
    assert forall|i: int| 0 <= i < offs(voices).len() implies 1 <= crate::playback::channel_of(
        #[trigger] offs(voices)[i],
    ) <= 16 by {
        assert(1 <= voices[i].channel <= 16);
    }
}

proof fn lemma_joined_channels(a: Seq<PreciseEventType>, b: Seq<PreciseEventType>)
    requires
        on_channels(a),
        on_channels(b),
    ensures
        on_channels(a + b),
{
    assert forall|i: int| 0 <= i < (a + b).len() implies 1 <= crate::playback::channel_of(
        #[trigger] (a + b)[i],
    ) <= 16 by {
        if i < a.len() {
            assert((a + b)[i] == a[i]);
        } else {
            assert((a + b)[i] == b[i - a.len()]);
        }
    }
}

proof fn lemma_all_offs_channels(tracks: Seq<TrackView>)
    requires
        tracks_on_channels(tracks),
    ensures
        on_channels(all_offs(tracks)),
    decreases tracks.len(),
{
    if tracks.len() > 0 {
        assert forall|i: int| 0 <= i < tracks.drop_last().len() implies (
        #[trigger] tracks.drop_last()[i]).schedule.on_channels() by {
            assert(tracks.drop_last()[i] == tracks[i]);
        }
        lemma_all_offs_channels(tracks.drop_last());
        assert(tracks[tracks.len() - 1].schedule.on_channels());
        lemma_offs_channels(tracks.last().schedule.voices);
        lemma_joined_channels(all_offs(tracks.drop_last()), offs(tracks.last().schedule.voices));
    }
}

proof fn lemma_retimed_offs_channels(tracks: Seq<TrackView>, sample_rate: u32, tempo: u32)
    requires
        tracks_on_channels(tracks),
    ensures
        on_channels(retimed_offs(tracks, sample_rate, tempo)),
    decreases tracks.len(),
{
    if tracks.len() > 0 {
        assert forall|i: int| 0 <= i < tracks.drop_last().len() implies (
        #[trigger] tracks.drop_last()[i]).schedule.on_channels() by {
            assert(tracks.drop_last()[i] == tracks[i]);
        }
        lemma_retimed_offs_channels(tracks.drop_last(), sample_rate, tempo);
        assert(tracks[tracks.len() - 1].schedule.on_channels());
        lemma_offs_channels(tracks.last().schedule.voices);
        let tail = if tracks.last().pattern.compilable(sample_rate, tempo) {
            offs(tracks.last().schedule.voices)
        } else {
            Seq::empty()
        };
        lemma_joined_channels(retimed_offs(tracks.drop_last(), sample_rate, tempo), tail);
    }
}

proof fn lemma_compiled_channels(pattern: PatternView, sample_rate: u32, tempo: u32, playing: bool)
    requires
        pattern.compilable(sample_rate, tempo),
    ensures
        pattern.compiled(sample_rate, tempo, playing).on_channels(),
{
    if pattern.events.len() > 0 {
        let plan = pattern.plan(sample_rate, tempo);
        pattern.lemma_placed_channels(plan, plan.count);
    }
}

proof fn lemma_all_events_channels(tracks: Seq<TrackView>, pos: i64, buf_size: usize)
    requires
        tracks_on_channels(tracks),
        buf_size <= u32::MAX,
    ensures
        on_channels(all_events(tracks, pos, buf_size)),
        tracks_on_channels(tracks.map_values(|t: TrackView| played_track(t, pos, buf_size))),
    decreases tracks.len(),
{
    let after = tracks.map_values(|t: TrackView| played_track(t, pos, buf_size));
    assert forall|i: int| 0 <= i < after.len() implies (#[trigger] after[i]).schedule.on_channels() by {
        let t = tracks[i];
        assert(t.schedule.on_channels());
        if t.schedule.playing && t.schedule.length_samples > 0 {
            t.schedule.lemma_run_channels(t.schedule.playback(), pos, buf_size as int, buf_size);
        }
    }
    if tracks.len() > 0 {
        assert forall|i: int| 0 <= i < tracks.drop_last().len() implies (
        #[trigger] tracks.drop_last()[i]).schedule.on_channels() by {
            assert(tracks.drop_last()[i] == tracks[i]);
        }
        lemma_all_events_channels(tracks.drop_last(), pos, buf_size);
        let t = tracks.last();
        assert(tracks[tracks.len() - 1].schedule.on_channels());
        if t.schedule.playing && t.schedule.length_samples > 0 {
            t.schedule.lemma_run_channels(t.schedule.playback(), pos, buf_size as int, buf_size);
        }
        lemma_joined_channels(
            all_events(tracks.drop_last(), pos, buf_size),
            track_events(t, pos, buf_size),
        );
    }
}

proof fn lemma_applied_channels(
    tracks: Seq<TrackView>,
    command: Option<CommandView>,
    sample_rate: u32,
    tempo: u32,
)
    requires
        tracks_on_channels(tracks),
    ensures
        tracks_on_channels(applied(tracks, command, sample_rate, tempo).tracks),
        on_channels(applied(tracks, command, sample_rate, tempo).events),
{
    let a = applied(tracks, command, sample_rate, tempo);
    lemma_all_offs_channels(tracks);
    match command {
        Some(CommandView::PatternStart(np)) => {
            if pattern_of(np).compilable(sample_rate, tempo) {
                lemma_compiled_channels(pattern_of(np), sample_rate, tempo, true);
                if index_of(tracks, np.name) is Some {
                    lemma_index_of_found(tracks, np.name);
                    let i = index_of(tracks, np.name)->0;
                    assert(tracks[i].schedule.on_channels());
                    lemma_offs_channels(tracks[i].schedule.voices);
                }
                assert forall|j: int| 0 <= j < a.tracks.len() implies (
                #[trigger] a.tracks[j]).schedule.on_channels() by {
                    if j < tracks.len() && a.tracks[j] == tracks[j] {
                        assert(tracks[j].schedule.on_channels());
                    }
                }
            }
        },
        Some(CommandView::PatternStop(name)) => {
            if index_of(tracks, name) is Some {
                lemma_index_of_found(tracks, name);
                let i = index_of(tracks, name)->0;
                assert(tracks[i].schedule.on_channels());
                lemma_offs_channels(tracks[i].schedule.voices);
                assert forall|j: int| 0 <= j < a.tracks.len() implies (
                #[trigger] a.tracks[j]).schedule.on_channels() by {
                    assert(tracks[j].schedule.on_channels());
                }
            }
        },
        Some(CommandView::PatternStopAll) => {
            assert forall|j: int| 0 <= j < a.tracks.len() implies (
            #[trigger] a.tracks[j]).schedule.on_channels() by {
                assert(tracks[j].schedule.on_channels());
            }
        },
        Some(CommandView::PatternClear(name)) => {
            if index_of(tracks, name) is Some {
                lemma_index_of_found(tracks, name);
                let i = index_of(tracks, name)->0;
                assert(tracks[i].schedule.on_channels());
                lemma_offs_channels(tracks[i].schedule.voices);
                assert forall|j: int| 0 <= j < a.tracks.len() implies (
                #[trigger] a.tracks[j]).schedule.on_channels() by {
                    if j < i {
                        assert(a.tracks[j] == tracks[j]);
                    } else {
                        assert(a.tracks[j] == tracks[j + 1]);
                    }
                }
            }
        },
        _ => {},
    }
}

proof fn lemma_recomputed_channels(tracks: Seq<TrackView>, sample_rate: u32, tempo: u32)
    requires
        tracks_on_channels(tracks),
    ensures
        tracks_on_channels(recomputed(tracks, sample_rate, tempo).tracks),
        on_channels(recomputed(tracks, sample_rate, tempo).events),
{
    let r = recomputed(tracks, sample_rate, tempo);
    lemma_retimed_offs_channels(tracks, sample_rate, tempo);
    assert forall|j: int| 0 <= j < r.tracks.len() implies (
    #[trigger] r.tracks[j]).schedule.on_channels() by {
        let t = tracks[j];
        assert(t.schedule.on_channels());
        if t.pattern.compilable(sample_rate, tempo) {
            lemma_compiled_channels(t.pattern, sample_rate, tempo, t.schedule.playing);
        }
    }
}

impl CodeView {
    /// Every track's schedule is on the sixteen channels.
    pub open spec fn on_channels(self) -> bool {
        tracks_on_channels(self.tracks)
    }

    /// A coordinator whose schedules are on the sixteen channels gives out
    /// events on the sixteen channels, and its schedules stay on them.
    pub proof fn lemma_cycle_channels(
        self,
        command: Option<CommandView>,
        buf_size: usize,
        ctx: Context,
    )
        requires
            self.on_channels(),
            buf_size <= u32::MAX,
        ensures
            self.played(command, buf_size, ctx).code.on_channels(),
            on_channels(self.played(command, buf_size, ctx).events),
            self.halted(ctx).code.on_channels(),
            on_channels(self.halted(ctx).events),
    {
        let a = applied(self.tracks, command, ctx.sample_rate, ctx.tempo);
        lemma_applied_channels(self.tracks, command, ctx.sample_rate, ctx.tempo);
        if !a.failed {
            let r = if ctx.tempo != self.tempo_prev_cycle {
                recomputed(a.tracks, ctx.sample_rate, ctx.tempo)
            } else {
                Outcome { tracks: a.tracks, events: Seq::empty(), failed: false }
            };
            if ctx.tempo != self.tempo_prev_cycle {
                lemma_recomputed_channels(a.tracks, ctx.sample_rate, ctx.tempo);
            }
            lemma_all_events_channels(r.tracks, ctx.pos_samples, buf_size);
            lemma_joined_channels(a.events, r.events);
            lemma_joined_channels(
                a.events + r.events,
                all_events(r.tracks, ctx.pos_samples, buf_size),
            );
        }
        lemma_all_offs_channels(self.tracks);
        let silent = self.tracks.map_values(|t: TrackView| silenced(t));
        assert forall|j: int| 0 <= j < silent.len() implies (#[trigger] silent[j]).schedule.on_channels() by {
            assert(self.tracks[j].schedule.on_channels());
        }
    }
}

} // verus!
