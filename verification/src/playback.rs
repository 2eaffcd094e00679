//! What playing a buffer means: the voices, the note-offs put down for later,
//! and what is given out, sample by sample; and what holds of every buffer.
use vstd::prelude::*;
use crate::precise::{
    append_at, ActiveVoice, NoteType, PreciseEventType, ScheduleView, SimpleCtrlEvent,
    SimpleNoteEvent, VoiceID, VoiceTerminatedEvent,
};

verus! {

/// `e` with its timing set to `t`.
pub open spec fn retimed(e: PreciseEventType, t: u32) -> PreciseEventType {
    match e {
        PreciseEventType::Note(n) => PreciseEventType::Note(SimpleNoteEvent { timing: t, ..n }),
        PreciseEventType::Ctrl(c) => PreciseEventType::Ctrl(SimpleCtrlEvent { timing: t, ..c }),
        PreciseEventType::VoiceTerminated(v) => PreciseEventType::VoiceTerminated(
            VoiceTerminatedEvent { timing: t, ..v },
        ),
    }
}

/// The timing that an event carries.
pub open spec fn timing_of(e: PreciseEventType) -> u32 {
    match e {
        PreciseEventType::Note(n) => n.timing,
        PreciseEventType::Ctrl(c) => c.timing,
        PreciseEventType::VoiceTerminated(v) => v.timing,
    }
}

/// The channel that an event is on, counted from one.
pub open spec fn channel_of(e: PreciseEventType) -> u8 {
    match e {
        PreciseEventType::Note(n) => n.channel,
        PreciseEventType::Ctrl(c) => c.channel,
        PreciseEventType::VoiceTerminated(v) => v.channel,
    }
}

/// Whether `a` plays `note` on `channel`, with the voice `only` where one is
/// asked for.
pub open spec fn voice_matches(a: ActiveVoice, channel: u8, note: u8, only: Option<VoiceID>) -> bool {
    a.channel == channel && a.note == note && (only is None || only == Some(a.voice_id))
}

/// `voices` without those that `voice_matches` picks, the others in their order.
pub open spec fn dropped(
    voices: Seq<ActiveVoice>,
    channel: u8,
    note: u8,
    only: Option<VoiceID>,
) -> Seq<ActiveVoice>
    decreases voices.len(),
{
    if voices.len() == 0 {
        voices
    } else if voice_matches(voices.last(), channel, note, only) {
        dropped(voices.drop_last(), channel, note, only)
    } else {
        dropped(voices.drop_last(), channel, note, only).push(voices.last())
    }
}

/// The voice that plays `note` on `channel`: the newest, where there are several.
pub open spec fn voice_of(voices: Seq<ActiveVoice>, channel: u8, note: u8) -> Option<VoiceID>
    decreases voices.len(),
{
    if voices.len() == 0 {
        None
    } else if voice_matches(voices.last(), channel, note, None) {
        Some(voices.last().voice_id)
    } else {
        voice_of(voices.drop_last(), channel, note)
    }
}

/// `voices` once the note-offs among `due` have taken their voices away.
pub open spec fn released(voices: Seq<ActiveVoice>, due: Seq<PreciseEventType>) -> Seq<ActiveVoice>
    decreases due.len(),
{
    if due.len() == 0 {
        voices
    } else {
        let rest = released(voices, due.drop_last());
        match due.last() {
            PreciseEventType::Note(n) => if n.note_type is Off {
                dropped(rest, n.channel, n.note, n.voice_id)
            } else {
                rest
            },
            _ => rest,
        }
    }
}

/// The id after `v`; after the last one the count starts again at zero.
pub open spec fn succ_voice(v: VoiceID) -> VoiceID {
    if v == i32::MAX {
        0
    } else {
        (v + 1) as i32
    }
}

/// The end of voice `v`: its note-off and its termination.
pub open spec fn off_pair(channel: u8, note: u8, v: VoiceID) -> Seq<PreciseEventType> {
    seq![
        PreciseEventType::Note(
            SimpleNoteEvent {
                note_type: NoteType::Off,
                timing: 0,
                voice_id: Some(v),
                channel: channel,
                note: note,
                velocity: 0,
                note_length_samples: 0,
            },
        ),
        PreciseEventType::VoiceTerminated(
            VoiceTerminatedEvent { timing: 0, channel: channel, voice_id: Some(v), note: note },
        ),
    ]
}

/// What changes while a buffer is played: the voices that sound, the note-offs
/// to come, the next voice id, and the events given out so far.
pub struct Playback {
    pub voices: Seq<ActiveVoice>,
    pub future: Map<i128, Seq<PreciseEventType>>,
    pub next_voice: VoiceID,
    pub out: Seq<PreciseEventType>,
}

/// Gives out what is due at song position `key`, timed `t` in the buffer.
pub open spec fn drain(s: Playback, key: i128, t: u32) -> Playback {
    if s.future.contains_key(key) {
        Playback {
            voices: released(s.voices, s.future[key]),
            future: s.future.remove(key),
            next_voice: s.next_voice,
            out: s.out + s.future[key].map_values(|e: PreciseEventType| retimed(e, t)),
        }
    } else {
        s
    }
}

/// Plays one entry of the schedule at song position `key`, timed `t` in the
/// buffer. A note going on gets the next voice id, takes the place of the voice
/// that played the same note, and has its end put down for the position where
/// its length runs out. A rest gives nothing.
pub open spec fn play_entry(s: Playback, e: PreciseEventType, key: i128, t: u32) -> Playback {
    match e {
        PreciseEventType::Note(n) => match n.note_type {
            NoteType::Rest => s,
            NoteType::On => Playback {
                voices: dropped(s.voices, n.channel, n.note, None).push(
                    ActiveVoice { channel: n.channel, note: n.note, voice_id: s.next_voice },
                ),
                future: append_at(
                    s.future,
                    (key + n.note_length_samples) as i128,
                    off_pair(n.channel, n.note, s.next_voice),
                ),
                next_voice: succ_voice(s.next_voice),
                out: s.out.push(
                    PreciseEventType::Note(
                        SimpleNoteEvent { timing: t, voice_id: Some(s.next_voice), ..n },
                    ),
                ),
            },
            NoteType::Off => match voice_of(s.voices, n.channel, n.note) {
                Some(v) => Playback {
                    voices: dropped(s.voices, n.channel, n.note, None),
                    out: s.out.push(
                        PreciseEventType::Note(SimpleNoteEvent { timing: t, voice_id: Some(v), ..n }),
                    ).push(
                        PreciseEventType::VoiceTerminated(
                            VoiceTerminatedEvent {
                                timing: t,
                                channel: n.channel,
                                voice_id: Some(v),
                                note: n.note,
                            },
                        ),
                    ),
                    ..s
                },
                None => s,
            },
        },
        _ => Playback { out: s.out.push(retimed(e, t)), ..s },
    }
}

/// Plays the entries of one offset, in their order.
pub open spec fn play_entries(s: Playback, es: Seq<PreciseEventType>, key: i128, t: u32) -> Playback
    decreases es.len(),
{
    if es.len() == 0 {
        s
    } else {
        play_entry(play_entries(s, es.drop_last(), key, t), es.last(), key, t)
    }
}

impl ScheduleView {
    /// The part of the schedule that playing changes, with nothing given out yet.
    pub open spec fn playback(self) -> Playback {
        Playback {
            voices: self.voices,
            future: self.future,
            next_voice: self.next_voice,
            out: Seq::empty(),
        }
    }

    /// This schedule with what `s` holds in place of what playing changes.
    pub open spec fn with(self, s: Playback) -> ScheduleView {
        ScheduleView { voices: s.voices, future: s.future, next_voice: s.next_voice, ..self }
    }

    /// How many samples of a buffer are looked up in the pattern: all of them
    /// while the buffer is shorter than the cycle.
    pub open spec fn window(self, buf_size: usize) -> int {
        buf_size as int % self.length_samples as int
    }

    /// The offset within the cycle of sample `t` of a buffer that starts at
    /// `pos`.
    pub open spec fn offset_at(self, pos: i64, t: int) -> usize {
        ((pos + t) % (self.length_samples as int)) as usize
    }

    /// One sample of the buffer: what is due goes out, then what the pattern
    /// holds at this offset is played, then what that has made due goes out.
    pub open spec fn step(self, s: Playback, pos: i64, t: u32, buf_size: usize) -> Playback {
        let key = (pos + t) as i128;
        let s1 = drain(s, key, t);
        let s2 = if t < self.window(buf_size) && self.events.contains_key(
            self.offset_at(pos, t as int),
        ) {
            play_entries(s1, self.events[self.offset_at(pos, t as int)], key, t)
        } else {
            s1
        };
        drain(s2, key, t)
    }

    /// The first `t` samples of the buffer.
    pub open spec fn run(self, s: Playback, pos: i64, t: int, buf_size: usize) -> Playback
        decreases t,
    {
        if t <= 0 {
            s
        } else {
            self.step(self.run(s, pos, t - 1, buf_size), pos, (t - 1) as u32, buf_size)
        }
    }
}

/// Every event of `out` is timed before `bound`.
pub open spec fn timed_before(out: Seq<PreciseEventType>, bound: int) -> bool {
    forall|i: int| 0 <= i < out.len() ==> timing_of(#[trigger] out[i]) < bound
}

/// The timings of what was given out do not go back.
pub open spec fn in_order(out: Seq<PreciseEventType>) -> bool {
    forall|i: int, j: int|
        0 <= i <= j < out.len() ==> timing_of(#[trigger] out[i]) <= timing_of(#[trigger] out[j])
}

proof fn lemma_drain_order(s: Playback, key: i128, t: u32)
    requires
        in_order(s.out),
        timed_before(s.out, t + 1),
    ensures
        in_order(drain(s, key, t).out),
        timed_before(drain(s, key, t).out, t + 1),
{
    let after = drain(s, key, t);
    assert forall|i: int| 0 <= i < after.out.len() implies timing_of(#[trigger] after.out[i]) < t
        + 1 && (i >= s.out.len() ==> timing_of(after.out[i]) == t) by {
        if i < s.out.len() {
            assert(after.out[i] == s.out[i]);
        }
    }
    assert forall|i: int, j: int| 0 <= i <= j < after.out.len() implies timing_of(
        #[trigger] after.out[i],
    ) <= timing_of(#[trigger] after.out[j]) by {
        if j < s.out.len() {
            assert(after.out[i] == s.out[i] && after.out[j] == s.out[j]);
        }
    }
}

proof fn lemma_play_entry_order(s: Playback, e: PreciseEventType, key: i128, t: u32)
    requires
        in_order(s.out),
        timed_before(s.out, t + 1),
    ensures
        in_order(play_entry(s, e, key, t).out),
        timed_before(play_entry(s, e, key, t).out, t + 1),
{
    let after = play_entry(s, e, key, t);
    assert forall|i: int| 0 <= i < after.out.len() implies timing_of(#[trigger] after.out[i]) < t
        + 1 && (i >= s.out.len() ==> timing_of(after.out[i]) == t) by {
        if i < s.out.len() {
            assert(after.out[i] == s.out[i]);
        }
    }
    assert forall|i: int, j: int| 0 <= i <= j < after.out.len() implies timing_of(
        #[trigger] after.out[i],
    ) <= timing_of(#[trigger] after.out[j]) by {
        if j < s.out.len() {
            assert(after.out[i] == s.out[i] && after.out[j] == s.out[j]);
        }
    }
}

proof fn lemma_play_entries_order(s: Playback, es: Seq<PreciseEventType>, key: i128, t: u32)
    requires
        in_order(s.out),
        timed_before(s.out, t + 1),
    ensures
        in_order(play_entries(s, es, key, t).out),
        timed_before(play_entries(s, es, key, t).out, t + 1),
    decreases es.len(),
{
    if es.len() > 0 {
        lemma_play_entries_order(s, es.drop_last(), key, t);
        lemma_play_entry_order(play_entries(s, es.drop_last(), key, t), es.last(), key, t);
    }
}

impl ScheduleView {
    /// What a buffer gives out is timed within the buffer and comes in the order
    /// of its timing: what belongs to an earlier sample comes earlier.
    pub proof fn lemma_run_order(self, s: Playback, pos: i64, t: int, buf_size: usize)
        requires
            s.out.len() == 0,
            0 <= t <= buf_size <= u32::MAX,
        ensures
            in_order(self.run(s, pos, t, buf_size).out),
            timed_before(self.run(s, pos, t, buf_size).out, t),
        decreases t,
    {
        if t > 0 {
            self.lemma_run_order(s, pos, t - 1, buf_size);
            let before = self.run(s, pos, t - 1, buf_size);
            let at = (t - 1) as u32;
            let key = (pos + at) as i128;
            let s1 = drain(before, key, at);
            lemma_drain_order(before, key, at);
            if at < self.window(buf_size) && self.events.contains_key(self.offset_at(pos, at as int)) {
                let s2 = play_entries(s1, self.events[self.offset_at(pos, at as int)], key, at);
                lemma_play_entries_order(s1, self.events[self.offset_at(pos, at as int)], key, at);
                lemma_drain_order(s2, key, at);
            } else {
                lemma_drain_order(s1, key, at);
            }
        }
    }
}

/// The end of a voice: a note-off or a termination.
pub open spec fn is_end(e: PreciseEventType) -> bool {
    match e {
        PreciseEventType::Note(n) => n.note_type is Off,
        PreciseEventType::VoiceTerminated(_) => true,
        PreciseEventType::Ctrl(_) => false,
    }
}

/// Nothing but ends of voices is put down for later.
pub open spec fn ends_only(future: Map<i128, Seq<PreciseEventType>>) -> bool {
    forall|k: i128, m: int|
        future.contains_key(k) && 0 <= m < future[k].len() ==> is_end(#[trigger] future[k][m])
}

/// A note going on with its voice.
pub open spec fn is_note_on(e: PreciseEventType) -> bool {
    e is Note && e->Note_0.note_type is On && e->Note_0.voice_id is Some
}

/// The song position at which a note that went on in the buffer at `pos` ends.
pub open spec fn end_key(pos: i64, e: PreciseEventType) -> int {
    pos + e->Note_0.timing + e->Note_0.note_length_samples
}

/// The note-off that ends the voice of a note going on.
pub open spec fn off_of(e: PreciseEventType) -> PreciseEventType {
    off_pair(e->Note_0.channel, e->Note_0.note, e->Note_0.voice_id->0)[0]
}

/// The termination of the voice of a note going on.
pub open spec fn gone_of(e: PreciseEventType) -> PreciseEventType {
    off_pair(e->Note_0.channel, e->Note_0.note, e->Note_0.voice_id->0)[1]
}

/// From place `from` on, `list` holds `a` with `b` right behind it.
pub open spec fn follows(
    list: Seq<PreciseEventType>,
    from: int,
    a: PreciseEventType,
    b: PreciseEventType,
) -> bool {
    exists|m: int| from <= m && m + 1 < list.len() && #[trigger] list[m] == a && list[m + 1] == b
}

/// The note that went on at place `i` of what was given out has its end: either
/// given out behind it, note-off and then termination, timed where the note's
/// length runs out, or put down for the song position where it does.
pub open spec fn settled(s: Playback, pos: i64, i: int) -> bool {
    let e = s.out[i];
    let k = end_key(pos, e);
    ||| (k - pos <= u32::MAX && follows(
        s.out,
        i + 1,
        retimed(off_of(e), (k - pos) as u32),
        retimed(gone_of(e), (k - pos) as u32),
    ))
    ||| (s.future.contains_key(k as i128) && follows(s.future[k as i128], 0, off_of(e), gone_of(e)))
}

/// Every note that went on has its end; see `settled`.
pub open spec fn all_settled(s: Playback, pos: i64) -> bool {
    forall|i: int| 0 <= i < s.out.len() && is_note_on(#[trigger] s.out[i]) ==> settled(s, pos, i)
}

proof fn lemma_follows_longer(
    list: Seq<PreciseEventType>,
    longer: Seq<PreciseEventType>,
    from: int,
    a: PreciseEventType,
    b: PreciseEventType,
)
    requires
        follows(list, from, a, b),
        list.len() <= longer.len(),
        forall|m: int| 0 <= m < list.len() ==> longer[m] == list[m],
        from >= 0,
    ensures
        follows(longer, from, a, b),
{
    let m = choose|m: int| from <= m && m + 1 < list.len() && #[trigger] list[m] == a && list[m + 1] == b;
    assert(longer[m] == a && longer[m + 1] == b);
}

/// Giving out what is due keeps every note settled.
proof fn lemma_drain_settles(s: Playback, pos: i64, key: i128, t: u32)
    requires
        key == pos + t,
        all_settled(s, pos),
        ends_only(s.future),
    ensures
        all_settled(drain(s, key, t), pos),
        ends_only(drain(s, key, t).future),
{
    let after = drain(s, key, t);
    if s.future.contains_key(key) {
        let due = s.future[key];
        let given = due.map_values(|e: PreciseEventType| retimed(e, t));
        assert forall|i: int| 0 <= i < after.out.len() && is_note_on(#[trigger] after.out[i]) implies settled(
            after,
            pos,
            i,
        ) by {
            if i < s.out.len() {
                let e = s.out[i];
                assert(after.out[i] == e);
                assert(settled(s, pos, i));
                let k = end_key(pos, e);
                if k - pos <= u32::MAX && follows(
                    s.out,
                    i + 1,
                    retimed(off_of(e), (k - pos) as u32),
                    retimed(gone_of(e), (k - pos) as u32),
                ) {
                    lemma_follows_longer(
                        s.out,
                        after.out,
                        i + 1,
                        retimed(off_of(e), (k - pos) as u32),
                        retimed(gone_of(e), (k - pos) as u32),
                    );
                } else if k == key {
                    let m = choose|m: int|
                        0 <= m && m + 1 < due.len() && #[trigger] due[m] == off_of(e) && due[m + 1]
                            == gone_of(e);
                    assert(after.out[s.out.len() + m] == given[m]);
                    assert(after.out[s.out.len() + m + 1] == given[m + 1]);
                    assert(after.out[s.out.len() + m] == retimed(off_of(e), t));
                } else {
                    assert(after.future.contains_key(k as i128));
                    assert(after.future[k as i128] == s.future[k as i128]);
                }
            } else {
                let e = due[i - s.out.len()];
                assert(is_end(e));
                assert(after.out[i] == retimed(e, t));
            }
        }
    }
}

/// Playing an entry of the schedule keeps every note settled, the note that it
/// starts among them.
proof fn lemma_play_entry_settles(s: Playback, e: PreciseEventType, pos: i64, key: i128, t: u32)
    requires
        key == pos + t,
        all_settled(s, pos),
        ends_only(s.future),
    ensures
        all_settled(play_entry(s, e, key, t), pos),
        ends_only(play_entry(s, e, key, t).future),
{
    let after = play_entry(s, e, key, t);
    assert forall|i: int| 0 <= i < after.out.len() && is_note_on(#[trigger] after.out[i]) implies settled(
        after,
        pos,
        i,
    ) by {
        if i < s.out.len() {
            let on = s.out[i];
            assert(after.out[i] == on);
            assert(settled(s, pos, i));
            let k = end_key(pos, on);
            if k - pos <= u32::MAX && follows(
                s.out,
                i + 1,
                retimed(off_of(on), (k - pos) as u32),
                retimed(gone_of(on), (k - pos) as u32),
            ) {
                lemma_follows_longer(
                    s.out,
                    after.out,
                    i + 1,
                    retimed(off_of(on), (k - pos) as u32),
                    retimed(gone_of(on), (k - pos) as u32),
                );
            } else {
                assert(after.future.contains_key(k as i128));
                lemma_follows_longer(
                    s.future[k as i128],
                    after.future[k as i128],
                    0,
                    off_of(on),
                    gone_of(on),
                );
            }
        } else {
            match e {
                PreciseEventType::Note(n) => {
                    if n.note_type is On {
                        let on = after.out[i];
                        let k = (key + n.note_length_samples) as i128;
                        let pair = off_pair(n.channel, n.note, s.next_voice);
                        assert(end_key(pos, on) == k);
                        let list = after.future[k];
                        let at = list.len() - 2;
                        assert(list[at] == pair[0] && list[at + 1] == pair[1]);
                        assert(list[at] == off_of(on));
                    }
                },
                _ => {},
            }
        }
    }
    assert forall|k: i128, m: int|
        after.future.contains_key(k) && 0 <= m < after.future[k].len() implies is_end(
        #[trigger] after.future[k][m],
    ) by {
        if s.future.contains_key(k) && m < s.future[k].len() {
            assert(after.future[k][m] == s.future[k][m]);
        }
    }
}

proof fn lemma_play_entries_settle(
    s: Playback,
    es: Seq<PreciseEventType>,
    pos: i64,
    key: i128,
    t: u32,
)
    requires
        key == pos + t,
        all_settled(s, pos),
        ends_only(s.future),
    ensures
        all_settled(play_entries(s, es, key, t), pos),
        ends_only(play_entries(s, es, key, t).future),
    decreases es.len(),
{
    if es.len() > 0 {
        lemma_play_entries_settle(s, es.drop_last(), pos, key, t);
        lemma_play_entry_settles(play_entries(s, es.drop_last(), key, t), es.last(), pos, key, t);
    }
}

impl ScheduleView {
    /// Every note that goes on while a buffer is played has its end given out
    /// behind it, in the same buffer, or put down for the song position where
    /// its length runs out; and nothing but ends of voices is put down.
    pub proof fn lemma_run_settles(self, s: Playback, pos: i64, t: int, buf_size: usize)
        requires
            all_settled(s, pos),
            ends_only(s.future),
            0 <= t <= buf_size <= u32::MAX,
        ensures
            all_settled(self.run(s, pos, t, buf_size), pos),
            ends_only(self.run(s, pos, t, buf_size).future),
        decreases t,
    {
        if t > 0 {
            self.lemma_run_settles(s, pos, t - 1, buf_size);
            let before = self.run(s, pos, t - 1, buf_size);
            let at = (t - 1) as u32;
            let key = (pos + at) as i128;
            let s1 = drain(before, key, at);
            lemma_drain_settles(before, pos, key, at);
            if at < self.window(buf_size) && self.events.contains_key(self.offset_at(pos, at as int)) {
                let s2 = play_entries(s1, self.events[self.offset_at(pos, at as int)], key, at);
                lemma_play_entries_settle(
                    s1,
                    self.events[self.offset_at(pos, at as int)],
                    pos,
                    key,
                    at,
                );
                lemma_drain_settles(s2, pos, key, at);
            } else {
                lemma_drain_settles(s1, pos, key, at);
            }
        }
    }
}

/// `b` starts with all of `a`.
pub open spec fn is_prefix(a: Seq<PreciseEventType>, b: Seq<PreciseEventType>) -> bool {
    a.len() <= b.len() && forall|m: int| 0 <= m < a.len() ==> b[m] == a[m]
}

/// From `a` to `b` nothing was taken back: what was given out is still there,
/// what was put down for later is still there, and nothing new is put down
/// for a song position before `key`.
pub open spec fn grown(a: Playback, b: Playback, key: i128) -> bool {
    &&& is_prefix(a.out, b.out)
    &&& forall|k: i128| #[trigger]
        a.future.contains_key(k) ==> b.future.contains_key(k) && is_prefix(a.future[k], b.future[k])
    &&& forall|k: i128| k < key && #[trigger] b.future.contains_key(k) ==> a.future.contains_key(k)
}

proof fn lemma_play_entry_grows(s: Playback, e: PreciseEventType, key: i128, t: u32)
    requires
        -0x1_0000_0000_0000_0000 <= key <= 0x1_0000_0000_0000_0000,
    ensures
        grown(s, play_entry(s, e, key, t), key),
{
}

proof fn lemma_play_entries_grow(s: Playback, es: Seq<PreciseEventType>, key: i128, t: u32)
    requires
        -0x1_0000_0000_0000_0000 <= key <= 0x1_0000_0000_0000_0000,
    ensures
        grown(s, play_entries(s, es, key, t), key),
    decreases es.len(),
{
    if es.len() > 0 {
        let mid = play_entries(s, es.drop_last(), key, t);
        lemma_play_entries_grow(s, es.drop_last(), key, t);
        lemma_play_entry_grows(mid, es.last(), key, t);
        let after = play_entry(mid, es.last(), key, t);
        assert forall|k: i128| #[trigger] s.future.contains_key(k) implies after.future.contains_key(k)
            && is_prefix(s.future[k], after.future[k]) by {
            assert(mid.future.contains_key(k));
        }
    }
}

/// What playing the first `t` samples of the buffer at `pos` has done with what
/// was put down before: every event that was put down for one of these samples
/// has been given out, timed at that sample; nothing stays put down for any of
/// them; and what was put down for another position is still put down.
pub open spec fn delivered(start: Playback, s: Playback, pos: i64, t: int) -> bool {
    &&& is_prefix(start.out, s.out)
    &&& forall|k: i128| pos <= k < pos + t ==> !(#[trigger] s.future.contains_key(k))
    &&& forall|k: i128|
        !(pos <= k < pos + t) && #[trigger] start.future.contains_key(k) ==> s.future.contains_key(k)
            && is_prefix(start.future[k], s.future[k])
    &&& forall|k: i128, m: int|
        pos <= k < pos + t && start.future.contains_key(k) && 0 <= m < start.future[k].len()
            ==> s.out.contains(retimed(#[trigger] start.future[k][m], (k - pos) as u32))
}

impl ScheduleView {
    proof fn lemma_step_delivers(self, start: Playback, before: Playback, pos: i64, at: u32, buf_size: usize)
        requires
            delivered(start, before, pos, at as int),
        ensures
            delivered(start, self.step(before, pos, at, buf_size), pos, at + 1),
    {
        let key = (pos + at) as i128;
        let s1 = drain(before, key, at);
        let s2 = if at < self.window(buf_size) && self.events.contains_key(
            self.offset_at(pos, at as int),
        ) {
            play_entries(s1, self.events[self.offset_at(pos, at as int)], key, at)
        } else {
            s1
        };
        let s3 = drain(s2, key, at);
        assert(s3 == self.step(before, pos, at, buf_size));
        if at < self.window(buf_size) && self.events.contains_key(self.offset_at(pos, at as int)) {
            lemma_play_entries_grow(s1, self.events[self.offset_at(pos, at as int)], key, at);
        }
        assert(grown(s1, s2, key));
        assert(is_prefix(before.out, s1.out));
        assert(is_prefix(s2.out, s3.out));
        assert forall|k: i128| pos <= k < pos + at + 1 implies !(#[trigger] s3.future.contains_key(k)) by {
            if k < key {
                assert(!before.future.contains_key(k));
                assert(!s1.future.contains_key(k));
                if s2.future.contains_key(k) {
                    assert(s1.future.contains_key(k));
                }
            }
        }
        assert forall|k: i128| !(pos <= k < pos + at + 1) && #[trigger] start.future.contains_key(
            k,
        ) implies s3.future.contains_key(k) && is_prefix(start.future[k], s3.future[k]) by {
            assert(before.future.contains_key(k));
            assert(s1.future.contains_key(k) && s1.future[k] == before.future[k]);
            assert(s2.future.contains_key(k) && is_prefix(s1.future[k], s2.future[k]));
        }
        assert forall|k: i128, m: int|
            pos <= k < pos + at + 1 && start.future.contains_key(k) && 0 <= m
                < start.future[k].len() implies s3.out.contains(
            retimed(#[trigger] start.future[k][m], (k - pos) as u32),
        ) by {
            let wanted = retimed(start.future[k][m], (k - pos) as u32);
            if k < key {
                assert(before.out.contains(wanted));
                let j = choose|j: int| 0 <= j < before.out.len() && before.out[j] == wanted;
                assert(s3.out[j] == wanted);
            } else {
                assert(before.future.contains_key(k));
                assert(is_prefix(start.future[k], before.future[k]));
                let given = before.future[k].map_values(|e: PreciseEventType| retimed(e, at));
                assert(s1.out[before.out.len() + m] == given[m]);
                assert(s3.out[before.out.len() + m] == wanted);
            }
        }
    }

    /// What was put down for a sample of the buffer is given out in it, timed at
    /// that sample; see `delivered`.
    pub proof fn lemma_run_delivers(self, s: Playback, pos: i64, t: int, buf_size: usize)
        requires
            0 <= t <= buf_size <= u32::MAX,
        ensures
            delivered(s, self.run(s, pos, t, buf_size), pos, t),
        decreases t,
    {
        if t > 0 {
            self.lemma_run_delivers(s, pos, t - 1, buf_size);
            self.lemma_step_delivers(
                s,
                self.run(s, pos, t - 1, buf_size),
                pos,
                (t - 1) as u32,
                buf_size,
            );
        }
    }
}

/// Which voice an event ends, and whether as its termination or as its
/// note-off.
pub struct Ending {
    pub voice: VoiceID,
    pub gone: bool,
}

/// What an event ends, where it is the note-off or the termination of a voice.
pub open spec fn ending_of(e: PreciseEventType) -> Option<Ending> {
    match e {
        PreciseEventType::Note(n) => if n.note_type is Off && n.voice_id is Some {
            Some(Ending { voice: n.voice_id->0, gone: false })
        } else {
            None
        },
        PreciseEventType::VoiceTerminated(v) => if v.voice_id is Some {
            Some(Ending { voice: v.voice_id->0, gone: true })
        } else {
            None
        },
        PreciseEventType::Ctrl(_) => None,
    }
}

/// The voice that an event starts, where it is a note going on.
pub open spec fn started_by(e: PreciseEventType) -> Option<VoiceID> {
    if is_note_on(e) {
        e->Note_0.voice_id
    } else {
        None
    }
}

/// The table holds what starts and nothing that ends: notes going on, rest
/// placeholders and controller changes.
pub open spec fn starts_only(events: Map<usize, Seq<PreciseEventType>>) -> bool {
    forall|k: usize, m: int|
        events.contains_key(k) && 0 <= m < events[k].len() ==> !is_end(#[trigger] events[k][m])
}

/// No voice is started twice or ended twice: every note-on that was given out
/// starts a voice of its own; every voice has at most one note-off and at most
/// one termination among what was given out and what is put down for later;
/// and every voice id in use is one that the count has passed.
pub open spec fn tidy(s: Playback) -> bool {
    &&& forall|k: i128, m: int|
        s.future.contains_key(k) && 0 <= m < s.future[k].len() && ending_of(
            #[trigger] s.future[k][m],
        ) is Some ==> ending_of(s.future[k][m])->0.voice < s.next_voice
    &&& forall|k1: i128, m1: int, k2: i128, m2: int|
        s.future.contains_key(k1) && 0 <= m1 < s.future[k1].len() && s.future.contains_key(k2) && 0
            <= m2 < s.future[k2].len() && ending_of(#[trigger] s.future[k1][m1]) is Some
            && ending_of(s.future[k1][m1]) == ending_of(#[trigger] s.future[k2][m2]) ==> k1 == k2
            && m1 == m2
    &&& forall|i: int|
        0 <= i < s.out.len() && ending_of(#[trigger] s.out[i]) is Some ==> ending_of(
            s.out[i],
        )->0.voice < s.next_voice
    &&& forall|i: int, j: int|
        0 <= i < s.out.len() && 0 <= j < s.out.len() && ending_of(#[trigger] s.out[i]) is Some
            && ending_of(s.out[i]) == ending_of(#[trigger] s.out[j]) ==> i == j
    &&& forall|i: int, k: i128, m: int|
        0 <= i < s.out.len() && s.future.contains_key(k) && 0 <= m < s.future[k].len()
            && ending_of(#[trigger] s.out[i]) is Some ==> ending_of(s.out[i]) != ending_of(
            #[trigger] s.future[k][m],
        )
    &&& forall|i: int|
        0 <= i < s.out.len() && started_by(#[trigger] s.out[i]) is Some ==> started_by(
            s.out[i],
        )->0 < s.next_voice
    &&& forall|i: int, j: int|
        0 <= i < s.out.len() && 0 <= j < s.out.len() && started_by(#[trigger] s.out[i]) is Some
            && started_by(s.out[i]) == started_by(#[trigger] s.out[j]) ==> i == j
}

/// While the entries are played, no note takes the last voice id, after which
/// the count starts again.
pub open spec fn calm_entries(s: Playback, es: Seq<PreciseEventType>, key: i128, t: u32) -> bool
    decreases es.len(),
{
    es.len() == 0 || (calm_entries(s, es.drop_last(), key, t) && (is_note_on_entry(es.last())
        ==> play_entries(s, es.drop_last(), key, t).next_voice < i32::MAX))
}

/// An entry of the schedule that is a note going on.
pub open spec fn is_note_on_entry(e: PreciseEventType) -> bool {
    e is Note && e->Note_0.note_type is On
}

impl ScheduleView {
    /// While the first `t` samples of the buffer are played, no note takes the
    /// last voice id.
    pub open spec fn calm(self, s: Playback, pos: i64, t: int, buf_size: usize) -> bool
        decreases t,
    {
        t <= 0 || (self.calm(s, pos, t - 1, buf_size) && {
            let at = (t - 1) as u32;
            let key = (pos + at) as i128;
            let before = drain(self.run(s, pos, t - 1, buf_size), key, at);
            at < self.window(buf_size) && self.events.contains_key(self.offset_at(pos, at as int))
                ==> calm_entries(before, self.events[self.offset_at(pos, at as int)], key, at)
        })
    }
}

proof fn lemma_drain_tidy(s: Playback, key: i128, t: u32)
    requires
        tidy(s),
        ends_only(s.future),
    ensures
        tidy(drain(s, key, t)),
{
    let after = drain(s, key, t);
    if s.future.contains_key(key) {
        let due = s.future[key];
        assert forall|i: int| 0 <= i < after.out.len() implies (i < s.out.len() ==> after.out[i]
            == s.out[i]) && (i >= s.out.len() ==> ending_of(#[trigger] after.out[i]) == ending_of(
            due[i - s.out.len()],
        ) && started_by(after.out[i]) is None) by {
            if i >= s.out.len() {
                assert(is_end(due[i - s.out.len()]));
                assert(after.out[i] == retimed(due[i - s.out.len()], t));
            }
        }
        assert forall|i: int, j: int|
            0 <= i < after.out.len() && 0 <= j < after.out.len() && ending_of(
                #[trigger] after.out[i],
            ) is Some && ending_of(after.out[i]) == ending_of(#[trigger] after.out[j]) implies i
            == j by {
            if i < s.out.len() && j < s.out.len() {
                assert(after.out[i] == s.out[i] && after.out[j] == s.out[j]);
            } else if i >= s.out.len() && j >= s.out.len() {
                assert(ending_of(due[i - s.out.len()]) == ending_of(due[j - s.out.len()]));
            } else if i < s.out.len() {
                assert(ending_of(s.out[i]) != ending_of(s.future[key][j - s.out.len()]));
            } else {
                assert(ending_of(s.out[j]) != ending_of(s.future[key][i - s.out.len()]));
            }
        }
        assert forall|i: int, k: i128, m: int|
            0 <= i < after.out.len() && after.future.contains_key(k) && 0 <= m
                < after.future[k].len() && ending_of(#[trigger] after.out[i]) is Some implies ending_of(
            after.out[i],
        ) != ending_of(#[trigger] after.future[k][m]) by {
            assert(after.future[k] == s.future[k]);
            if i < s.out.len() {
                assert(ending_of(s.out[i]) != ending_of(s.future[k][m]));
            } else {
                let a = i - s.out.len();
                if ending_of(s.future[key][a]) == ending_of(s.future[k][m]) {
                    assert(key == k);
                }
            }
        }
        assert forall|i: int|
            0 <= i < after.out.len() && ending_of(#[trigger] after.out[i]) is Some implies ending_of(
            after.out[i],
        )->0.voice < after.next_voice by {
            if i >= s.out.len() {
                assert(ending_of(s.future[key][i - s.out.len()]) is Some);
            }
        }
        assert forall|i: int, j: int|
            0 <= i < after.out.len() && 0 <= j < after.out.len() && started_by(
                #[trigger] after.out[i],
            ) is Some && started_by(after.out[i]) == started_by(#[trigger] after.out[j]) implies i
            == j by {
            assert(after.out[i] == s.out[i] && after.out[j] == s.out[j]);
        }
        assert forall|k1: i128, m1: int, k2: i128, m2: int|
            after.future.contains_key(k1) && 0 <= m1 < after.future[k1].len()
                && after.future.contains_key(k2) && 0 <= m2 < after.future[k2].len() && ending_of(
                #[trigger] after.future[k1][m1],
            ) is Some && ending_of(after.future[k1][m1]) == ending_of(
                #[trigger] after.future[k2][m2],
            ) implies k1 == k2 && m1 == m2 by {
            assert(after.future[k1] == s.future[k1] && after.future[k2] == s.future[k2]);
            assert(ending_of(s.future[k1][m1]) == ending_of(s.future[k2][m2]));
        }
    }
}

proof fn lemma_play_entry_tidy(s: Playback, e: PreciseEventType, key: i128, t: u32)
    requires
        tidy(s),
        !is_end(e),
        is_note_on_entry(e) ==> s.next_voice < i32::MAX,
        -0x1_0000_0000_0000_0000 <= key <= 0x1_0000_0000_0000_0000,
    ensures
        tidy(play_entry(s, e, key, t)),
        s.next_voice <= play_entry(s, e, key, t).next_voice,
{
    let after = play_entry(s, e, key, t);
    assert forall|i: int| 0 <= i < s.out.len() implies #[trigger] after.out[i] == s.out[i] by {}
    if is_note_on_entry(e) {
        let n = e->Note_0;
        let v = s.next_voice;
        let at = (key + n.note_length_samples) as i128;
        let pair = off_pair(n.channel, n.note, v);
        let list = after.future[at];
        let base = list.len() - 2;
        assert(ending_of(pair[0]) == Some(Ending { voice: v, gone: false }));
        assert(ending_of(pair[1]) == Some(Ending { voice: v, gone: true }));
        assert(list[base] == pair[0] && list[base + 1] == pair[1]);
        assert(ending_of(after.out[s.out.len() as int]) is None);
        assert(started_by(after.out[s.out.len() as int]) == Some(v));
        assert forall|k: i128, m: int|
            after.future.contains_key(k) && 0 <= m < after.future[k].len() implies (k == at && m
            >= base ==> #[trigger] after.future[k][m] == pair[m - base]) && (!(k == at && m >= base)
            ==> s.future.contains_key(k) && m < s.future[k].len() && after.future[k][m]
            == s.future[k][m]) by {}
        assert forall|k1: i128, m1: int, k2: i128, m2: int|
            after.future.contains_key(k1) && 0 <= m1 < after.future[k1].len()
                && after.future.contains_key(k2) && 0 <= m2 < after.future[k2].len() && ending_of(
                #[trigger] after.future[k1][m1],
            ) is Some && ending_of(after.future[k1][m1]) == ending_of(
                #[trigger] after.future[k2][m2],
            ) implies k1 == k2 && m1 == m2 by {
            let new1 = k1 == at && m1 >= base;
            let new2 = k2 == at && m2 >= base;
            if !new1 && !new2 {
                assert(ending_of(s.future[k1][m1]) == ending_of(s.future[k2][m2]));
            } else if new1 && !new2 {
                assert(ending_of(s.future[k2][m2])->0.voice < v);
            } else if !new1 && new2 {
                assert(ending_of(s.future[k1][m1])->0.voice < v);
            }
        }
        assert forall|i: int, k: i128, m: int|
            0 <= i < after.out.len() && after.future.contains_key(k) && 0 <= m
                < after.future[k].len() && ending_of(#[trigger] after.out[i]) is Some implies ending_of(
            after.out[i],
        ) != ending_of(#[trigger] after.future[k][m]) by {
            assert(i < s.out.len());
            if k == at && m >= base {
                assert(ending_of(s.out[i])->0.voice < v);
            } else {
                assert(ending_of(s.out[i]) != ending_of(s.future[k][m]));
            }
        }
        assert forall|i: int, j: int|
            0 <= i < after.out.len() && 0 <= j < after.out.len() && started_by(
                #[trigger] after.out[i],
            ) is Some && started_by(after.out[i]) == started_by(#[trigger] after.out[j]) implies i
            == j by {
            if i < s.out.len() && j < s.out.len() {
                assert(started_by(s.out[i]) == started_by(s.out[j]));
            } else if i < s.out.len() {
                assert(started_by(s.out[i])->0 < v);
            } else if j < s.out.len() {
                assert(started_by(s.out[j])->0 < v);
            }
        }
        assert forall|i: int, j: int|
            0 <= i < after.out.len() && 0 <= j < after.out.len() && ending_of(
                #[trigger] after.out[i],
            ) is Some && ending_of(after.out[i]) == ending_of(#[trigger] after.out[j]) implies i
            == j by {
            if i < s.out.len() && j < s.out.len() {
                assert(ending_of(s.out[i]) == ending_of(s.out[j]));
            }
        }
    } else {
        assert(after.future == s.future);
        assert forall|i: int| s.out.len() <= i < after.out.len() implies ending_of(
            #[trigger] after.out[i],
        ) is None && started_by(after.out[i]) is None by {}
        assert forall|i: int, j: int|
            0 <= i < after.out.len() && 0 <= j < after.out.len() && ending_of(
                #[trigger] after.out[i],
            ) is Some && ending_of(after.out[i]) == ending_of(#[trigger] after.out[j]) implies i
            == j by {
            if i < s.out.len() && j < s.out.len() {
                assert(ending_of(s.out[i]) == ending_of(s.out[j]));
            }
        }
        assert forall|i: int, j: int|
            0 <= i < after.out.len() && 0 <= j < after.out.len() && started_by(
                #[trigger] after.out[i],
            ) is Some && started_by(after.out[i]) == started_by(#[trigger] after.out[j]) implies i
            == j by {
            if i < s.out.len() && j < s.out.len() {
                assert(started_by(s.out[i]) == started_by(s.out[j]));
            }
        }
    }
}

proof fn lemma_play_entries_tidy(s: Playback, es: Seq<PreciseEventType>, key: i128, t: u32)
    requires
        tidy(s),
        forall|m: int| 0 <= m < es.len() ==> !is_end(#[trigger] es[m]),
        calm_entries(s, es, key, t),
        -0x1_0000_0000_0000_0000 <= key <= 0x1_0000_0000_0000_0000,
    ensures
        tidy(play_entries(s, es, key, t)),
    decreases es.len(),
{
    if es.len() > 0 {
        assert forall|m: int| 0 <= m < es.drop_last().len() implies !is_end(
            #[trigger] es.drop_last()[m],
        ) by {
            assert(es.drop_last()[m] == es[m]);
        }
        lemma_play_entries_tidy(s, es.drop_last(), key, t);
        assert(!is_end(es[es.len() - 1]));
        lemma_play_entry_tidy(play_entries(s, es.drop_last(), key, t), es.last(), key, t);
    }
}

impl ScheduleView {
    /// Playing a buffer starts no voice twice and ends none twice, where the
    /// table holds nothing that ends a voice and the voice count does not start
    /// again; see `tidy`.
    pub proof fn lemma_run_tidy(self, s: Playback, pos: i64, t: int, buf_size: usize)
        requires
            tidy(s),
            ends_only(s.future),
            all_settled(s, pos),
            starts_only(self.events),
            self.calm(s, pos, t, buf_size),
            0 <= t <= buf_size <= u32::MAX,
        ensures
            tidy(self.run(s, pos, t, buf_size)),
        decreases t,
    {
        if t > 0 {
            self.lemma_run_tidy(s, pos, t - 1, buf_size);
            self.lemma_run_settles(s, pos, t - 1, buf_size);
            let before = self.run(s, pos, t - 1, buf_size);
            let at = (t - 1) as u32;
            let key = (pos + at) as i128;
            let s1 = drain(before, key, at);
            lemma_drain_tidy(before, key, at);
            lemma_drain_settles(before, pos, key, at);
            if at < self.window(buf_size) && self.events.contains_key(self.offset_at(pos, at as int)) {
                let es = self.events[self.offset_at(pos, at as int)];
                let s2 = play_entries(s1, es, key, at);
                lemma_play_entries_tidy(s1, es, key, at);
                lemma_play_entries_settle(s1, es, pos, key, at);
                lemma_drain_tidy(s2, key, at);
            } else {
                lemma_drain_tidy(s1, key, at);
            }
        }
    }
}

/// What ends a voice in `s` was put down before `start`, or ends a voice that
/// was started since; and the voice count has not gone back.
pub open spec fn sourced(start: Playback, s: Playback) -> bool {
    &&& start.next_voice <= s.next_voice
    &&& forall|k: i128, m: int|
        s.future.contains_key(k) && 0 <= m < s.future[k].len() && ending_of(
            #[trigger] s.future[k][m],
        ) is Some ==> (start.future.contains_key(k) && m < start.future[k].len()
            && start.future[k][m] == s.future[k][m]) || ending_of(s.future[k][m])->0.voice
            >= start.next_voice
    &&& forall|i: int|
        0 <= i < s.out.len() && ending_of(#[trigger] s.out[i]) is Some ==> was_pending(
            start,
            ending_of(s.out[i])->0,
        ) || ending_of(s.out[i])->0.voice >= start.next_voice
}

/// The ending `e` is put down in `s` for some position.
pub open spec fn was_pending(s: Playback, e: Ending) -> bool {
    exists|k: i128, m: int|
        s.future.contains_key(k) && 0 <= m < s.future[k].len() && ending_of(
            #[trigger] s.future[k][m],
        ) == Some(e)
}

proof fn lemma_drain_sourced(start: Playback, s: Playback, key: i128, t: u32)
    requires
        sourced(start, s),
    ensures
        sourced(start, drain(s, key, t)),
{
    let after = drain(s, key, t);
    if s.future.contains_key(key) {
        let due = s.future[key];
        assert forall|i: int|
            0 <= i < after.out.len() && ending_of(#[trigger] after.out[i]) is Some implies was_pending(
            start,
            ending_of(after.out[i])->0,
        ) || ending_of(after.out[i])->0.voice >= start.next_voice by {
            if i < s.out.len() {
                assert(after.out[i] == s.out[i]);
            } else {
                let m = i - s.out.len();
                assert(after.out[i] == retimed(due[m], t));
                assert(ending_of(after.out[i]) == ending_of(s.future[key][m]));
                if start.future.contains_key(key) && m < start.future[key].len()
                    && start.future[key][m] == s.future[key][m] {
                    assert(ending_of(start.future[key][m]) == Some(ending_of(after.out[i])->0));
                }
            }
        }
        assert forall|k: i128, m: int|
            after.future.contains_key(k) && 0 <= m < after.future[k].len() && ending_of(
                #[trigger] after.future[k][m],
            ) is Some implies (start.future.contains_key(k) && m < start.future[k].len()
            && start.future[k][m] == after.future[k][m]) || ending_of(after.future[k][m])->0.voice
            >= start.next_voice by {
            assert(after.future[k] == s.future[k]);
            assert(ending_of(s.future[k][m]) is Some);
        }
    }
}

proof fn lemma_play_entry_sourced(start: Playback, s: Playback, e: PreciseEventType, key: i128, t: u32)
    requires
        sourced(start, s),
        !is_end(e),
        is_note_on_entry(e) ==> s.next_voice < i32::MAX,
        -0x1_0000_0000_0000_0000 <= key <= 0x1_0000_0000_0000_0000,
    ensures
        sourced(start, play_entry(s, e, key, t)),
{
    let after = play_entry(s, e, key, t);
    assert forall|i: int| 0 <= i < s.out.len() implies #[trigger] after.out[i] == s.out[i] by {}
    assert forall|i: int| s.out.len() <= i < after.out.len() implies ending_of(
        #[trigger] after.out[i],
    ) is None by {}
    if is_note_on_entry(e) {
        let n = e->Note_0;
        let v = s.next_voice;
        let at = (key + n.note_length_samples) as i128;
        let pair = off_pair(n.channel, n.note, v);
        let list = after.future[at];
        let base = list.len() - 2;
        assert(list[base] == pair[0] && list[base + 1] == pair[1]);
        assert forall|k: i128, m: int|
            after.future.contains_key(k) && 0 <= m < after.future[k].len() && ending_of(
                #[trigger] after.future[k][m],
            ) is Some implies (start.future.contains_key(k) && m < start.future[k].len()
            && start.future[k][m] == after.future[k][m]) || ending_of(after.future[k][m])->0.voice
            >= start.next_voice by {
            if k == at && m >= base {
                assert(after.future[k][m] == pair[m - base]);
            } else {
                assert(s.future.contains_key(k) && m < s.future[k].len());
                assert(after.future[k][m] == s.future[k][m]);
                assert(ending_of(s.future[k][m]) is Some);
            }
        }
    } else {
        assert(after.future == s.future);
    }
}

proof fn lemma_play_entries_sourced(
    start: Playback,
    s: Playback,
    es: Seq<PreciseEventType>,
    key: i128,
    t: u32,
)
    requires
        sourced(start, s),
        forall|m: int| 0 <= m < es.len() ==> !is_end(#[trigger] es[m]),
        calm_entries(s, es, key, t),
        -0x1_0000_0000_0000_0000 <= key <= 0x1_0000_0000_0000_0000,
    ensures
        sourced(start, play_entries(s, es, key, t)),
    decreases es.len(),
{
    if es.len() > 0 {
        assert forall|m: int| 0 <= m < es.drop_last().len() implies !is_end(
            #[trigger] es.drop_last()[m],
        ) by {
            assert(es.drop_last()[m] == es[m]);
        }
        lemma_play_entries_sourced(start, s, es.drop_last(), key, t);
        assert(!is_end(es[es.len() - 1]));
        lemma_play_entry_sourced(
            start,
            play_entries(s, es.drop_last(), key, t),
            es.last(),
            key,
            t,
        );
    }
}

impl ScheduleView {
    /// What a buffer gives out to end a voice was put down before the buffer,
    /// or ends a voice that the buffer started; see `sourced`.
    pub proof fn lemma_run_sourced(self, s: Playback, pos: i64, t: int, buf_size: usize)
        requires
            s.out.len() == 0,
            starts_only(self.events),
            self.calm(s, pos, t, buf_size),
            0 <= t <= buf_size <= u32::MAX,
        ensures
            sourced(s, self.run(s, pos, t, buf_size)),
        decreases t,
    {
        if t > 0 {
            self.lemma_run_sourced(s, pos, t - 1, buf_size);
            let before = self.run(s, pos, t - 1, buf_size);
            let at = (t - 1) as u32;
            let key = (pos + at) as i128;
            let s1 = drain(before, key, at);
            lemma_drain_sourced(s, before, key, at);
            if at < self.window(buf_size) && self.events.contains_key(self.offset_at(pos, at as int)) {
                let es = self.events[self.offset_at(pos, at as int)];
                let s2 = play_entries(s1, es, key, at);
                lemma_play_entries_sourced(s, s1, es, key, at);
                lemma_drain_sourced(s, s2, key, at);
            } else {
                lemma_drain_sourced(s, s1, key, at);
            }
        }
    }

    /// No voice is ended in two buffers: what one buffer gives out to end a
    /// voice, the next buffer does not give out again, wherever in the song it
    /// is played.
    pub proof fn lemma_no_second_end(
        self,
        s: Playback,
        pos: i64,
        buf_size: usize,
        next_pos: i64,
        next_buf_size: usize,
    )
        requires
            s.out.len() == 0,
            tidy(s),
            ends_only(s.future),
            starts_only(self.events),
            buf_size <= u32::MAX,
            next_buf_size <= u32::MAX,
            self.calm(s, pos, buf_size as int, buf_size),
            self.calm(
                self.with(self.run(s, pos, buf_size as int, buf_size)).playback(),
                next_pos,
                next_buf_size as int,
                next_buf_size,
            ),
        ensures
            ({
                let first = self.run(s, pos, buf_size as int, buf_size);
                let second = self.run(
                    self.with(first).playback(),
                    next_pos,
                    next_buf_size as int,
                    next_buf_size,
                );
                forall|i: int, j: int|
                    0 <= i < first.out.len() && 0 <= j < second.out.len() && ending_of(
                        #[trigger] first.out[i],
                    ) is Some ==> ending_of(first.out[i]) != ending_of(#[trigger] second.out[j])
            }),
    {
        let first = self.run(s, pos, buf_size as int, buf_size);
        let between = self.with(first).playback();
        let second = self.run(between, next_pos, next_buf_size as int, next_buf_size);
        self.lemma_run_tidy(s, pos, buf_size as int, buf_size);
        self.lemma_run_sourced(between, next_pos, next_buf_size as int, next_buf_size);
        assert(between.future == first.future && between.next_voice == first.next_voice);
        assert forall|i: int, j: int|
            0 <= i < first.out.len() && 0 <= j < second.out.len() && ending_of(
                #[trigger] first.out[i],
            ) is Some implies ending_of(first.out[i]) != ending_of(#[trigger] second.out[j]) by {
            if ending_of(first.out[i]) == ending_of(second.out[j]) {
                let e = ending_of(second.out[j])->0;
                assert(e.voice < first.next_voice);
                assert(was_pending(between, e));
                let (k, m) = choose|k: i128, m: int|
                    between.future.contains_key(k) && 0 <= m < between.future[k].len()
                        && ending_of(#[trigger] between.future[k][m]) == Some(e);
                assert(ending_of(first.out[i]) != ending_of(first.future[k][m]));
            }
        }
    }
}

/// Every event of the list is on one of the sixteen channels.
pub open spec fn on_channels(list: Seq<PreciseEventType>) -> bool {
    forall|i: int| 0 <= i < list.len() ==> 1 <= channel_of(#[trigger] list[i]) <= 16
}

/// Every event in the table is on one of the sixteen channels.
pub open spec fn table_on_channels<K>(table: Map<K, Seq<PreciseEventType>>) -> bool {
    forall|k: K, i: int|
        table.contains_key(k) && 0 <= i < table[k].len() ==> 1 <= channel_of(#[trigger] table[k][i])
            <= 16
}

/// Every voice plays on one of the sixteen channels.
pub open spec fn voices_on_channels(voices: Seq<ActiveVoice>) -> bool {
    forall|i: int| 0 <= i < voices.len() ==> 1 <= (#[trigger] voices[i]).channel <= 16
}

impl Playback {
    /// Whatever the playing holds is on one of the sixteen channels.
    pub open spec fn on_channels(self) -> bool {
        on_channels(self.out) && table_on_channels(self.future) && voices_on_channels(self.voices)
    }
}

impl ScheduleView {
    /// Whatever the schedule holds is on one of the sixteen channels.
    pub open spec fn on_channels(self) -> bool {
        table_on_channels(self.events) && table_on_channels(self.future) && voices_on_channels(
            self.voices,
        )
    }
}

proof fn lemma_dropped_channels(voices: Seq<ActiveVoice>, channel: u8, note: u8, only: Option<VoiceID>)
    requires
        voices_on_channels(voices),
    ensures
        voices_on_channels(dropped(voices, channel, note, only)),
    decreases voices.len(),
{
    if voices.len() > 0 {
        assert forall|i: int| 0 <= i < voices.drop_last().len() implies 1 <= (
        #[trigger] voices.drop_last()[i]).channel <= 16 by {
            assert(voices.drop_last()[i] == voices[i]);
        }
        lemma_dropped_channels(voices.drop_last(), channel, note, only);
        assert(1 <= voices[voices.len() - 1].channel <= 16);
    }
}

proof fn lemma_released_channels(voices: Seq<ActiveVoice>, due: Seq<PreciseEventType>)
    requires
        voices_on_channels(voices),
    ensures
        voices_on_channels(released(voices, due)),
    decreases due.len(),
{
    if due.len() > 0 {
        lemma_released_channels(voices, due.drop_last());
        match due.last() {
            PreciseEventType::Note(n) => {
                lemma_dropped_channels(
                    released(voices, due.drop_last()),
                    n.channel,
                    n.note,
                    n.voice_id,
                );
            },
            _ => {},
        }
    }
}

proof fn lemma_drain_channels(s: Playback, key: i128, t: u32)
    requires
        s.on_channels(),
    ensures
        drain(s, key, t).on_channels(),
{
    let after = drain(s, key, t);
    if s.future.contains_key(key) {
        lemma_released_channels(s.voices, s.future[key]);
        assert forall|i: int| 0 <= i < after.out.len() implies 1 <= channel_of(
            #[trigger] after.out[i],
        ) <= 16 by {
            if i < s.out.len() {
                assert(after.out[i] == s.out[i]);
            } else {
                assert(after.out[i] == retimed(s.future[key][i - s.out.len()], t));
            }
        }
        assert forall|k: i128, i: int|
            after.future.contains_key(k) && 0 <= i < after.future[k].len() implies 1 <= channel_of(
            #[trigger] after.future[k][i],
        ) <= 16 by {
            assert(after.future[k] == s.future[k]);
        }
    }
}

proof fn lemma_play_entry_channels(s: Playback, e: PreciseEventType, key: i128, t: u32)
    requires
        s.on_channels(),
        1 <= channel_of(e) <= 16,
    ensures
        play_entry(s, e, key, t).on_channels(),
{
    let after = play_entry(s, e, key, t);
    assert forall|i: int| 0 <= i < s.out.len() implies #[trigger] after.out[i] == s.out[i] by {}
    assert forall|i: int| s.out.len() <= i < after.out.len() implies channel_of(
        #[trigger] after.out[i],
    ) == channel_of(e) by {}
    match e {
        PreciseEventType::Note(n) => {
            lemma_dropped_channels(s.voices, n.channel, n.note, None);
            if n.note_type is On {
                let at = (key + n.note_length_samples) as i128;
                let pair = off_pair(n.channel, n.note, s.next_voice);
                assert forall|k: i128, i: int|
                    after.future.contains_key(k) && 0 <= i < after.future[k].len() implies 1
                    <= channel_of(#[trigger] after.future[k][i]) <= 16 by {
                    if s.future.contains_key(k) && i < s.future[k].len() {
                        assert(after.future[k][i] == s.future[k][i]);
                    } else {
                        assert(k == at);
                        let base = after.future[k].len() - 2;
                        assert(after.future[k][i] == pair[i - base]);
                    }
                }
                let kept = dropped(s.voices, n.channel, n.note, None);
                assert forall|i: int| 0 <= i < after.voices.len() implies 1 <= (
                #[trigger] after.voices[i]).channel <= 16 by {
                    if i < kept.len() {
                        assert(after.voices[i] == kept[i]);
                    }
                }
            }
        },
        _ => {},
    }
}

proof fn lemma_play_entries_channels(s: Playback, es: Seq<PreciseEventType>, key: i128, t: u32)
    requires
        s.on_channels(),
        on_channels(es),
    ensures
        play_entries(s, es, key, t).on_channels(),
    decreases es.len(),
{
    if es.len() > 0 {
        assert forall|i: int| 0 <= i < es.drop_last().len() implies 1 <= channel_of(
            #[trigger] es.drop_last()[i],
        ) <= 16 by {
            assert(es.drop_last()[i] == es[i]);
        }
        lemma_play_entries_channels(s, es.drop_last(), key, t);
        assert(1 <= channel_of(es[es.len() - 1]) <= 16);
        lemma_play_entry_channels(play_entries(s, es.drop_last(), key, t), es.last(), key, t);
    }
}

impl ScheduleView {
    /// A schedule on the sixteen channels gives out events on the sixteen
    /// channels and stays on them.
    pub proof fn lemma_run_channels(self, s: Playback, pos: i64, t: int, buf_size: usize)
        requires
            table_on_channels(self.events),
            s.on_channels(),
            0 <= t <= buf_size <= u32::MAX,
        ensures
            self.run(s, pos, t, buf_size).on_channels(),
        decreases t,
    {
        if t > 0 {
            self.lemma_run_channels(s, pos, t - 1, buf_size);
            let before = self.run(s, pos, t - 1, buf_size);
            let at = (t - 1) as u32;
            let key = (pos + at) as i128;
            let s1 = drain(before, key, at);
            lemma_drain_channels(before, key, at);
            if at < self.window(buf_size) && self.events.contains_key(self.offset_at(pos, at as int)) {
                let es = self.events[self.offset_at(pos, at as int)];
                assert(on_channels(es));
                let s2 = play_entries(s1, es, key, at);
                lemma_play_entries_channels(s1, es, key, at);
                lemma_drain_channels(s2, key, at);
            } else {
                lemma_drain_channels(s1, key, at);
            }
        }
    }
}

} // verus!
