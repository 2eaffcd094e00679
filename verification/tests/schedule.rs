use crispy_code::dur::{bar, Dur, half};
use crispy_code::host::{HostEvent, to_host_event};
use crispy_code::pattern::{CtrlEvent, Event, EventType, Note, Pattern};
use crispy_code::precise::{
    compute_extra_samples,
    NoteType,
    PreciseEventType,
    PrecisePattern,
    SimpleCtrlEvent,
    SimpleNoteEvent,
    VoiceTerminatedEvent,
};
use std::collections::HashMap;

#[test]
fn precise_test_compute_extra_samples() -> Result<(), String> {
    let extra_samples = compute_extra_samples(37, 5);
    assert_eq!(extra_samples, vec![8, 8, 7, 7, 7]);
    Ok(())
}

fn verify_pattern_playback(
    pattern: &Pattern,
    expectations: &HashMap<usize, Vec<PreciseEventType>>,
) -> Result<(), String> {
    let sample_rate = 48000;
    let tempo = 110_000;
    let mut precise_pattern = PrecisePattern::from(&mut pattern.clone(), sample_rate, tempo, true);
    let buffer_size_samples = 256 as usize;
    let max_buf_num = *expectations.keys().max().unwrap();

    for bufnum in 0..(max_buf_num + 1) {
        let expected_events_opt = expectations.get(&bufnum);
        let buffer_start_samples = bufnum * buffer_size_samples;
        let events = precise_pattern.get_events(buffer_start_samples as i64, buffer_size_samples);

        match expected_events_opt {
            Some(expected_events) => {
                assert_eq!(
                    *expected_events, events,
                    "expected {:?}, got {:?} (bufnum {:?})",
                    expected_events, events, bufnum
                );
            }
            None => {
                assert_eq!(
                    events.len(),
                    0,
                    "expected no events, got {:?} (bufnum={:?})",
                    events,
                    bufnum
                );
            }
        }
    }
    Ok(())
}

fn note_on(timing: u32, voice: i32, note: u8, length: usize) -> PreciseEventType {
    PreciseEventType::Note(SimpleNoteEvent {
        note_type: NoteType::On,
        timing: timing,
        voice_id: Some(voice),
        channel: 1,
        note: note,
        velocity: 80,
        note_length_samples: length,
    })
}

fn note_off(timing: u32, voice: i32, note: u8) -> PreciseEventType {
    PreciseEventType::Note(SimpleNoteEvent {
        note_type: NoteType::Off,
        timing: timing,
        voice_id: Some(voice),
        channel: 1,
        note: note,
        velocity: 0,
        note_length_samples: 0 as usize,
    })
}

fn voice_terminated(timing: u32, voice: i32, note: u8) -> PreciseEventType {
    PreciseEventType::VoiceTerminated(VoiceTerminatedEvent {
        timing: timing,
        voice_id: Some(voice),
        channel: 1,
        note: note,
    })
}

fn two_notes(length_bars: Dur, sounded: Dur) -> Pattern {
    Pattern {
        channel: 1,
        length_bars: length_bars,
        events: vec![
            Event {
                action: EventType::NoteEvent(Note {
                    note_num: 60,
                    velocity: 80,
                    dur: sounded,
                }),
                dur: Dur { num: 1, den: 2 },
            },
            Event {
                action: EventType::NoteEvent(Note {
                    note_num: 96,
                    velocity: 80,
                    dur: sounded,
                }),
                dur: Dur { num: 1, den: 2 },
            },
        ],
    }
}

#[test]
fn test_precise_pattern_empty() {
    let pat = &mut Pattern {
        channel: 1,
        events: vec![],
        length_bars: bar(),
    };
    let sample_rate = 48000;
    let tempo_bpm = 120_000;
    let is_playing = true;
    let ppat = PrecisePattern::from(pat, sample_rate, tempo_bpm, is_playing);
    assert_eq!(
        ppat,
        PrecisePattern {
            events: HashMap::new(),
            length_samples: 96000,
            playing: false, // empty pattern just gets turned off by default
            notes_playing: Vec::new(),
            future_events: HashMap::new(),
            next_voice_id: 0,
        }
    );
}

#[test]
fn test_precise_pattern_notes() -> Result<(), String> {
    let pattern = two_notes(Dur { num: 1, den: 2 }, Dur { num: 1, den: 4 });
    let expectations: HashMap<usize, Vec<PreciseEventType>> = HashMap::from([
        (0, vec![note_on(0, 0, 60, 6545)]),
        (25, vec![note_off(145, 0, 60), voice_terminated(145, 0, 60)]),
        (102, vec![note_on(70, 1, 96, 6545)]),
        (127, vec![note_off(215, 1, 96), voice_terminated(215, 1, 96)]),
        // Add this last one to see how the code behaves when the pattern loops.
        (204, vec![note_on(139, 2, 60, 6545)]),
    ]);
    verify_pattern_playback(&pattern, &expectations)
}

#[test]
fn pattern_test_precise_pattern() -> Result<(), String> {
    let pattern = two_notes(Dur { num: 1, den: 2 }, Dur { num: 1, den: 4 });
    let mut precise_pattern = PrecisePattern::from(&mut pattern.clone(), 48000, 110_000, true);
    let buffer_size_samples = 256 as usize;
    // (buffer, note type, timing, note, velocity)
    let expectations: HashMap<usize, (NoteType, u32, u8, u8)> = HashMap::from([
        (0, (NoteType::On, 0, 60, 80)),
        (25, (NoteType::Off, 145, 60, 0)),
        (102, (NoteType::On, 70, 96, 80)),
        (127, (NoteType::Off, 215, 96, 0)),
        (204, (NoteType::On, 139, 60, 80)),
    ]);
    let max_buf_num = *expectations.keys().max().unwrap();

    for bufnum in 0..(max_buf_num + 1) {
        let buffer_start_samples = bufnum * buffer_size_samples;
        let events = precise_pattern.get_events(buffer_start_samples as i64, buffer_size_samples);
        let notes: Vec<(NoteType, u32, u8, u8)> = events
            .iter()
            .filter_map(|ev| match ev {
                PreciseEventType::Note(n) => {
                    assert_eq!(n.channel, 1);
                    Some((n.note_type, n.timing, n.note, n.velocity))
                }
                _ => None,
            })
            .collect();
        match expectations.get(&bufnum) {
            Some(expected) => assert_eq!(vec![*expected], notes),
            None => assert_eq!(events.len(), 0),
        }
    }
    Ok(())
}

#[test]
fn test_precise_pattern_ctrl() -> Result<(), String> {
    let pattern = Pattern {
        channel: 1,
        length_bars: Dur { num: 1, den: 2 },
        events: vec![
            Event {
                action: EventType::Ctrl(CtrlEvent { cc: 102, value: 80 }),
                dur: Dur { num: 1, den: 2 },
            },
            Event {
                action: EventType::Ctrl(CtrlEvent { cc: 102, value: 40 }),
                dur: Dur { num: 1, den: 2 },
            },
        ],
    };
    let expectations: HashMap<usize, Vec<PreciseEventType>> = HashMap::from([
        (
            0,
            vec![PreciseEventType::Ctrl(SimpleCtrlEvent {
                timing: 0,
                channel: 1,
                cc: 102,
                value: 80,
            })],
        ),
        (
            102,
            vec![PreciseEventType::Ctrl(SimpleCtrlEvent {
                timing: 70,
                channel: 1,
                cc: 102,
                value: 40,
            })],
        ),
    ]);
    verify_pattern_playback(&pattern, &expectations)
}

#[test]
fn test_precise_pattern_overlapping_notes() -> Result<(), String> {
    let pattern = two_notes(Dur { num: 1, den: 1 }, Dur { num: 2, den: 1 });
    let expectations: HashMap<usize, Vec<PreciseEventType>> = HashMap::from([
        // Beginning of the pattern
        (0, vec![note_on(0, 0, 60, 104726)]),
        // Halfway through the pattern: sample 52364
        (204, vec![note_on(140, 1, 96, 104726)]),
        // End of the pattern, which loops back on itself: the first voice ends
        // at sample 104726, one sample before the note comes round again
        (
            409,
            vec![
                note_off(22, 0, 60),
                voice_terminated(22, 0, 60),
                note_on(23, 2, 60, 104726),
            ],
        ),
        // Halfway through the next loop of the pattern
        (
            613,
            vec![
                note_off(162, 1, 96),
                voice_terminated(162, 1, 96),
                note_on(163, 3, 96, 104726),
            ],
        ),
    ]);
    verify_pattern_playback(&pattern, &expectations)
}

fn event(action: EventType, num: i64, den: i64) -> Event {
    Event { action: action, dur: Dur { num: num, den: den } }
}

fn sounding(note_num: u8, num: i64, den: i64) -> EventType {
    EventType::NoteEvent(Note { note_num: note_num, velocity: 80, dur: Dur { num: num, den: den } })
}

fn pattern_of(length_bars: Dur, events: Vec<Event>) -> Pattern {
    Pattern { channel: 1, length_bars: length_bars, events: events }
}

fn timing_of(e: &PreciseEventType) -> u32 {
    match e {
        PreciseEventType::Note(n) => n.timing,
        PreciseEventType::Ctrl(c) => c.timing,
        PreciseEventType::VoiceTerminated(v) => v.timing,
    }
}

#[test]
fn samples_per_bar_are_rounded_to_the_nearest() {
    let empty = pattern_of(bar(), vec![]);
    // 48000 * 240 / 110 is 104727.27
    assert_eq!(PrecisePattern::from(&empty, 48000, 110_000, true).length_samples, 104727);
    // 44100 * 240 / 93.5 is 113197.86
    assert_eq!(PrecisePattern::from(&empty, 44100, 93_500, true).length_samples, 113198);
    // 48000 * 240 / 127.999 is 90000.70
    assert_eq!(PrecisePattern::from(&empty, 48000, 127_999, true).length_samples, 90001);
    // 1000 * 240 / 480 is exactly 500, and 7 * 240 / 0.96 exactly 1750
    assert_eq!(PrecisePattern::from(&empty, 1000, 480_000, true).length_samples, 500);
    assert_eq!(PrecisePattern::from(&empty, 7, 960, true).length_samples, 1750);
    // 3 * 240 / 1.44 is exactly 500; 1 * 240 / 0.32 is exactly 750
    assert_eq!(PrecisePattern::from(&empty, 3, 1_440, true).length_samples, 500);
    // half a sample rounds up: 1 * 240 / 160 is 1.5
    assert_eq!(PrecisePattern::from(&empty, 1, 160_000, true).length_samples, 2);
    assert!(!PrecisePattern::from(&empty, 48000, 110_000, true).playing);
}

#[test]
fn left_over_samples_go_to_the_first_events() {
    assert_eq!(compute_extra_samples(0, 3), vec![0, 0, 0]);
    assert_eq!(compute_extra_samples(2, 3), vec![1, 1, 0]);
    assert_eq!(compute_extra_samples(3, 3), vec![1, 1, 1]);
    assert_eq!(compute_extra_samples(7, 1), vec![7]);
    for (rem, n) in [(37i64, 5usize), (1, 4), (0, 1), (99, 100), (12345, 7)] {
        let shares = compute_extra_samples(rem, n);
        assert_eq!(shares.len(), n);
        assert_eq!(shares.iter().sum::<i64>(), rem);
    }
}

#[test]
fn the_cycle_is_as_long_as_its_events() {
    // one bar at 110 bpm is 104727 samples; three thirds are 34909 each
    let thirds = pattern_of(
        bar(),
        vec![event(sounding(60, 1, 2), 1, 3), event(EventType::Rest, 1, 3), event(sounding(62, 1, 2), 1, 3)],
    );
    let compiled = PrecisePattern::from(&thirds, 48000, 110_000, true);
    assert_eq!(compiled.length_samples, 104727);
    let mut offsets: Vec<usize> = compiled.events.keys().cloned().collect();
    offsets.sort();
    assert_eq!(offsets, vec![0, 34909, 69818]);

    // a half and two quarters: 4 ticks of 26181 samples and 3 samples left
    // over, one for each event
    let mixed = pattern_of(
        bar(),
        vec![event(sounding(60, 1, 2), 1, 2), event(sounding(62, 1, 1), 1, 4), event(sounding(64, 1, 3), 1, 4)],
    );
    let compiled = PrecisePattern::from(&mixed, 48000, 110_000, true);
    assert_eq!(compiled.length_samples, 104727);
    let mut offsets: Vec<usize> = compiled.events.keys().cloned().collect();
    offsets.sort();
    assert_eq!(offsets, vec![0, 52363, 78545]);
    assert_eq!(
        compiled.events[&0],
        vec![PreciseEventType::Note(SimpleNoteEvent {
            note_type: NoteType::On,
            timing: 0,
            voice_id: None,
            channel: 1,
            note: 60,
            velocity: 80,
            note_length_samples: 26181,
        })]
    );
    // the sounded fraction is taken of the event's ticks, without its share of
    // the left-over
    match compiled.events[&52363][0] {
        PreciseEventType::Note(n) => assert_eq!(n.note_length_samples, 26181),
        _ => panic!("a note was expected"),
    }
    match compiled.events[&78545][0] {
        PreciseEventType::Note(n) => assert_eq!(n.note_length_samples, 8727),
        _ => panic!("a note was expected"),
    }
}

#[test]
fn durations_that_are_not_in_lowest_terms_compile_alike() {
    let lowest = pattern_of(bar(), vec![event(sounding(60, 1, 2), 1, 2), event(EventType::Rest, 1, 2)]);
    let written = pattern_of(bar(), vec![event(sounding(60, 1, 2), 2, 4), event(EventType::Rest, 3, 6)]);
    let a = PrecisePattern::from(&lowest, 48000, 120_000, true);
    let b = PrecisePattern::from(&written, 48000, 120_000, true);
    assert_eq!(a.length_samples, 96000);
    assert_eq!(a, b);
}

#[test]
fn a_chord_puts_every_note_at_one_offset() {
    let chord = EventType::MultiNoteEvent(vec![
        Note { note_num: 60, velocity: 80, dur: Dur { num: 1, den: 2 } },
        Note { note_num: 64, velocity: 70, dur: Dur { num: 1, den: 4 } },
        Note { note_num: 67, velocity: 60, dur: Dur { num: 1, den: 1 } },
    ]);
    let pattern = pattern_of(bar(), vec![event(chord, 1, 1)]);
    let mut compiled = PrecisePattern::from(&pattern, 48000, 120_000, true);
    assert_eq!(compiled.events.len(), 1);
    assert_eq!(compiled.events[&0].len(), 3);
    let events = compiled.get_events(0, 256);
    let started: Vec<(u8, Option<i32>, usize)> = events
        .iter()
        .map(|e| match e {
            PreciseEventType::Note(n) => (n.note, n.voice_id, n.note_length_samples),
            _ => panic!("a note was expected"),
        })
        .collect();
    assert_eq!(
        started,
        vec![(60, Some(0), 48000), (64, Some(1), 24000), (67, Some(2), 96000)]
    );
    assert_eq!(compiled.notes_playing.len(), 3);
    assert_eq!(compiled.next_voice_id, 3);
}

#[test]
fn patterns_that_do_not_compile_are_told_apart() {
    let good = pattern_of(bar(), vec![event(sounding(60, 1, 2), 1, 1)]);
    assert!(good.is_well_formed());
    assert!(PrecisePattern::compile(&good, 48000, 120_000, true).is_some());
    assert!(PrecisePattern::compile(&good, 48000, 0, true).is_none());

    let mut no_channel = good.clone();
    no_channel.channel = 0;
    assert!(!no_channel.is_well_formed());
    assert!(PrecisePattern::compile(&no_channel, 48000, 120_000, true).is_none());
    let mut high_channel = good.clone();
    high_channel.channel = 17;
    assert!(!high_channel.is_well_formed());

    for length in [Dur { num: 0, den: 1 }, Dur { num: -1, den: 2 }, Dur { num: 1, den: 0 }, Dur { num: 1, den: -1 }] {
        let mut bad = good.clone();
        bad.length_bars = length;
        assert!(!bad.is_well_formed(), "{:?}", length);
        assert!(PrecisePattern::compile(&bad, 48000, 120_000, true).is_none());
    }
    for dur in [Dur { num: 1, den: 0 }, Dur { num: -1, den: 2 }, Dur { num: 1, den: -2 }] {
        let bad = pattern_of(bar(), vec![event(sounding(60, 1, 2), dur.num, dur.den)]);
        assert!(!bad.is_well_formed(), "{:?}", dur);
        let bad = pattern_of(bar(), vec![event(sounding(60, dur.num, dur.den), 1, 1)]);
        assert!(!bad.is_well_formed(), "{:?}", dur);
        let chord = EventType::MultiNoteEvent(vec![
            Note { note_num: 60, velocity: 80, dur: half() },
            Note { note_num: 64, velocity: 80, dur: dur },
        ]);
        let bad = pattern_of(bar(), vec![event(chord, 1, 1)]);
        assert!(!bad.is_well_formed(), "{:?}", dur);
    }
    // notes and controller changes outside their ranges
    let out_of_range = vec![
        EventType::NoteEvent(Note { note_num: 128, velocity: 80, dur: half() }),
        EventType::NoteEvent(Note { note_num: 60, velocity: 101, dur: half() }),
        EventType::MultiNoteEvent(vec![Note { note_num: 190, velocity: 80, dur: half() }]),
        EventType::Ctrl(CtrlEvent { cc: 128, value: 0 }),
        EventType::Ctrl(CtrlEvent { cc: 0, value: 101 }),
    ];
    for action in out_of_range {
        let bad = pattern_of(bar(), vec![event(action, 1, 1)]);
        assert!(!bad.is_well_formed(), "{:?}", bad);
        assert!(PrecisePattern::compile(&bad, 48000, 120_000, true).is_none());
    }
    let at_the_edge = pattern_of(
        bar(),
        vec![
            event(EventType::NoteEvent(Note { note_num: 127, velocity: 100, dur: half() }), 1, 2),
            event(EventType::Ctrl(CtrlEvent { cc: 127, value: 100 }), 1, 2),
        ],
    );
    assert!(at_the_edge.is_well_formed());
    // a cycle holds at most u32::MAX samples
    let long = pattern_of(Dur { num: 100_000, den: 1 }, vec![event(EventType::Rest, 1, 1)]);
    assert!(long.is_well_formed());
    assert!(PrecisePattern::compile(&long, 48000, 120_000, true).is_none());
    let fits = pattern_of(Dur { num: 40_000, den: 1 }, vec![event(EventType::Rest, 1, 1)]);
    assert_eq!(
        PrecisePattern::compile(&fits, 48000, 120_000, true).unwrap().length_samples,
        3_840_000_000
    );
    // denominators whose least common multiple does not fit
    let coprime = pattern_of(
        bar(),
        vec![event(EventType::Rest, 1, 2_147_483_647), event(EventType::Rest, 1, 2_147_483_629)],
    );
    assert_eq!(coprime.events_lcm(), Some(2_147_483_647 * 2_147_483_629));
    assert_eq!(
        PrecisePattern::compile(&coprime, 48000, 120_000, true).unwrap().length_samples,
        96000
    );
    let coprime = pattern_of(
        bar(),
        vec![
            event(EventType::Rest, 1, 2_147_483_647),
            event(EventType::Rest, 1, 2_147_483_629),
            event(EventType::Rest, 1, 2_147_483_587),
        ],
    );
    assert_eq!(coprime.events_lcm(), None);
    assert!(PrecisePattern::compile(&coprime, 48000, 120_000, true).is_none());
}

#[test]
fn the_least_common_multiple_of_the_denominators() {
    let mut pattern = pattern_of(
        bar(),
        vec![event(sounding(60, 1, 2), 1, 4), event(EventType::Rest, 1, 6), event(sounding(62, 1, 2), 7, 12)],
    );
    assert_eq!(pattern.events_lcm(), Some(12));
    assert_eq!(pattern.compute_events_lcm(), 12);
    let durs: Vec<Dur> = pattern.events.iter().map(|e| e.dur).collect();
    assert_eq!(
        durs,
        vec![Dur { num: 3, den: 12 }, Dur { num: 2, den: 12 }, Dur { num: 7, den: 12 }]
    );
    assert_eq!(pattern.events[0].action, sounding(60, 1, 2));
    assert_eq!(pattern_of(bar(), vec![]).events_lcm(), Some(1));
}

#[test]
fn timings_lie_within_the_buffer_and_do_not_go_back() {
    let pattern = pattern_of(
        Dur { num: 1, den: 64 },
        vec![
            event(sounding(60, 1, 3), 1, 3),
            event(EventType::Ctrl(CtrlEvent { cc: 7, value: 50 }), 1, 3),
            event(sounding(60, 3, 1), 1, 3),
        ],
    );
    for buf_size in [1usize, 7, 64, 255, 256, 1000, 1499, 1500, 1501, 4096] {
        let mut compiled = PrecisePattern::from(&pattern, 48000, 120_000, true);
        assert_eq!(compiled.length_samples, 1500);
        let mut pos: i64 = -5000;
        for _ in 0..40 {
            let events = compiled.get_events(pos, buf_size);
            let mut last = 0;
            for e in &events {
                assert!((timing_of(e) as usize) < buf_size, "{:?} in a buffer of {}", e, buf_size);
                assert!(timing_of(e) >= last);
                last = timing_of(e);
            }
            pos += buf_size as i64;
        }
        assert!(compiled.get_events(pos, 0).is_empty());
    }
}

#[test]
fn every_voice_ends_once_after_it_started() {
    // notes that overlap themselves, notes that end at once, and a chord
    let pattern = pattern_of(
        Dur { num: 1, den: 100 },
        vec![
            event(sounding(60, 5, 2), 1, 4),
            event(sounding(60, 0, 1), 1, 4),
            event(
                EventType::MultiNoteEvent(vec![
                    Note { note_num: 62, velocity: 80, dur: Dur { num: 1, den: 7 } },
                    Note { note_num: 60, velocity: 80, dur: Dur { num: 9, den: 7 } },
                ]),
                1,
                4,
            ),
            event(EventType::Rest, 1, 4),
        ],
    );
    let buf_size = 100usize;
    let buffers = 60;
    let mut compiled = PrecisePattern::from(&pattern, 48000, 120_000, true);
    assert_eq!(compiled.length_samples, 960);
    // (voice, kind, song position); kind 0 is on, 1 off, 2 terminated
    let mut seen: Vec<(i32, u8, i64)> = Vec::new();
    let mut lengths: HashMap<i32, i64> = HashMap::new();
    for b in 0..buffers {
        let pos = (b * buf_size) as i64;
        for e in compiled.get_events(pos, buf_size) {
            match e {
                PreciseEventType::Note(n) => {
                    let at = pos + n.timing as i64;
                    match n.note_type {
                        NoteType::On => {
                            lengths.insert(n.voice_id.unwrap(), n.note_length_samples as i64);
                            seen.push((n.voice_id.unwrap(), 0, at));
                        }
                        NoteType::Off => seen.push((n.voice_id.unwrap(), 1, at)),
                        NoteType::Rest => panic!("a rest came out"),
                    }
                }
                PreciseEventType::VoiceTerminated(v) => {
                    seen.push((v.voice_id.unwrap(), 2, pos + v.timing as i64))
                }
                PreciseEventType::Ctrl(_) => panic!("a controller change came out"),
            }
        }
    }
    let end = (buffers * buf_size) as i64;
    let voices = *seen.iter().map(|(v, _, _)| v).max().unwrap();
    assert!(voices > 20);
    for v in 0..=voices {
        let mine: Vec<(u8, i64)> = seen.iter().filter(|(w, _, _)| *w == v).map(|(_, k, at)| (*k, *at)).collect();
        let started = mine[0].1;
        assert_eq!(mine[0].0, 0, "voice {} starts with its note-on", v);
        if started + lengths[&v] < end {
            assert_eq!(mine, vec![(0, started), (1, started + lengths[&v]), (2, started + lengths[&v])]);
        } else {
            assert_eq!(mine, vec![(0, started)]);
            let due = (started + lengths[&v]) as i128;
            assert_eq!(compiled.future_events[&due].len() % 2, 0);
        }
    }
    // voice ids are handed out in the order of the notes
    let order: Vec<i32> = seen.iter().filter(|(_, k, _)| *k == 0).map(|(v, _, _)| *v).collect();
    assert_eq!(order, (0..=voices).collect::<Vec<i32>>());
}

#[test]
fn a_note_that_ends_at_once_is_ended_behind_its_note_on() {
    let pattern = pattern_of(bar(), vec![event(sounding(60, 0, 1), 1, 1)]);
    let mut compiled = PrecisePattern::from(&pattern, 48000, 120_000, true);
    assert_eq!(
        compiled.get_events(0, 256),
        vec![note_on(0, 0, 60, 0), note_off(0, 0, 60), voice_terminated(0, 0, 60)]
    );
    assert!(compiled.notes_playing.is_empty());
    assert!(compiled.future_events.is_empty());
}

#[test]
fn the_end_of_a_voice_comes_before_the_note_that_takes_its_place() {
    // the note sounds for exactly one cycle: it ends where it starts again
    let pattern = pattern_of(Dur { num: 1, den: 1000 }, vec![event(sounding(60, 1, 1), 1, 1)]);
    let mut compiled = PrecisePattern::from(&pattern, 48000, 120_000, true);
    assert_eq!(compiled.length_samples, 96);
    assert_eq!(
        compiled.get_events(0, 64),
        vec![note_on(0, 0, 60, 96)]
    );
    assert_eq!(
        compiled.get_events(64, 64),
        vec![note_off(32, 0, 60), voice_terminated(32, 0, 60), note_on(32, 1, 60, 96)]
    );
    assert_eq!(compiled.notes_playing.len(), 1);
    assert_eq!(compiled.notes_playing[0].voice_id, 1);
}

#[test]
fn a_buffer_longer_than_the_cycle_looks_up_what_is_over() {
    let pattern = pattern_of(
        Dur { num: 1, den: 1000 },
        vec![
            event(EventType::Ctrl(CtrlEvent { cc: 1, value: 10 }), 1, 2),
            event(EventType::Ctrl(CtrlEvent { cc: 2, value: 20 }), 1, 2),
        ],
    );
    let ctrl = |timing: u32, cc: u8, value: u8| {
        PreciseEventType::Ctrl(SimpleCtrlEvent { timing: timing, channel: 1, cc: cc, value: value })
    };
    let mut compiled = PrecisePattern::from(&pattern, 48000, 120_000, true);
    assert_eq!(compiled.length_samples, 96);
    // the window straddles the end of the cycle
    assert_eq!(compiled.get_events(40, 60), vec![ctrl(8, 2, 20), ctrl(56, 1, 10)]);
    // a buffer of one cycle and four samples looks up four samples
    assert_eq!(compiled.get_events(0, 100), vec![ctrl(0, 1, 10)]);
    assert_eq!(compiled.get_events(46, 100), vec![ctrl(2, 2, 20)]);
    // a buffer of exactly one cycle looks up none
    assert_eq!(compiled.get_events(0, 96), vec![]);
    // before the song starts the cycle runs on as it would: -50 is offset 46
    assert_eq!(compiled.get_events(-50, 60), vec![ctrl(2, 2, 20), ctrl(50, 1, 10)]);
    assert_eq!(compiled.get_events(-96, 10), vec![ctrl(0, 1, 10)]);
}

#[test]
fn start_stop_and_the_notes_that_play() {
    let pattern = pattern_of(bar(), vec![event(sounding(60, 1, 2), 1, 2), event(sounding(64, 1, 2), 1, 2)]);
    let mut compiled = PrecisePattern::from(&pattern, 48000, 120_000, false);
    assert!(!compiled.playing);
    assert!(compiled.get_events(0, 256).is_empty());
    compiled.start();
    assert!(compiled.playing);
    assert_eq!(compiled.get_events(0, 256).len(), 1);
    assert_eq!(compiled.get_events(48000, 256).len(), 1);
    assert_eq!(compiled.future_events.len(), 2);
    compiled.stop();
    assert!(!compiled.playing);
    assert!(compiled.future_events.is_empty());
    assert!(compiled.get_events(24000, 256).is_empty());
    let offs = compiled.get_notes_playing();
    let expected: Vec<SimpleNoteEvent> = [(60u8, 0i32), (64, 1)]
        .iter()
        .map(|(note, voice)| SimpleNoteEvent {
            note_type: NoteType::Off,
            timing: 0,
            voice_id: Some(*voice),
            channel: 1,
            note: *note,
            velocity: 0,
            note_length_samples: 0,
        })
        .collect();
    assert_eq!(offs, expected);
    assert!(compiled.notes_playing.is_empty());
    assert!(compiled.get_notes_playing().is_empty());
}

#[test]
fn the_voice_count_starts_again_after_the_last_id() {
    let pattern = pattern_of(bar(), vec![event(sounding(60, 1, 2), 1, 1)]);
    let mut compiled = PrecisePattern::from(&pattern, 48000, 120_000, true);
    compiled.next_voice_id = i32::MAX;
    assert_eq!(compiled.get_events(0, 256), vec![note_on(0, i32::MAX, 60, 48000)]);
    assert_eq!(compiled.next_voice_id, 0);
}

#[test]
fn entries_put_into_a_schedule_by_hand_are_played_too() {
    let pattern = pattern_of(bar(), vec![event(sounding(60, 1, 2), 1, 1)]);
    let mut compiled = PrecisePattern::from(&pattern, 48000, 120_000, true);
    // a note-off in the schedule ends the voice that plays the note
    compiled.events.insert(
        100,
        vec![
            PreciseEventType::Note(SimpleNoteEvent {
                note_type: NoteType::Off,
                timing: 0,
                voice_id: None,
                channel: 1,
                note: 60,
                velocity: 0,
                note_length_samples: 0,
            }),
            PreciseEventType::VoiceTerminated(VoiceTerminatedEvent {
                timing: 0,
                channel: 1,
                voice_id: Some(9),
                note: 61,
            }),
            // a note-off for a note that does not play gives nothing
            PreciseEventType::Note(SimpleNoteEvent {
                note_type: NoteType::Off,
                timing: 0,
                voice_id: None,
                channel: 1,
                note: 72,
                velocity: 0,
                note_length_samples: 0,
            }),
        ],
    );
    assert_eq!(
        compiled.get_events(0, 256),
        vec![
            note_on(0, 0, 60, 48000),
            note_off(100, 0, 60),
            voice_terminated(100, 0, 60),
            voice_terminated(100, 9, 61),
        ]
    );
    assert!(compiled.notes_playing.is_empty());
}

#[test]
fn the_host_counts_channels_from_zero() {
    assert_eq!(
        to_host_event(note_on(7, 3, 60, 100)),
        Some(HostEvent::NoteOn { timing: 7, voice_id: Some(3), channel: 0, note: 60, velocity: 80 })
    );
    assert_eq!(
        to_host_event(note_off(9, 3, 60)),
        Some(HostEvent::NoteOff { timing: 9, voice_id: Some(3), channel: 0, note: 60, velocity: 0 })
    );
    assert_eq!(
        to_host_event(voice_terminated(9, 3, 60)),
        Some(HostEvent::VoiceTerminated { timing: 9, voice_id: Some(3), channel: 0, note: 60 })
    );
    assert_eq!(
        to_host_event(PreciseEventType::Ctrl(SimpleCtrlEvent {
            timing: 1,
            channel: 16,
            cc: 7,
            value: 40
        })),
        Some(HostEvent::MidiCC { timing: 1, channel: 15, cc: 7, value: 40 })
    );
    let rest = PreciseEventType::Note(SimpleNoteEvent {
        note_type: NoteType::Rest,
        timing: 0,
        voice_id: None,
        channel: 1,
        note: 0,
        velocity: 0,
        note_length_samples: 0,
    });
    assert_eq!(to_host_event(rest), None);
}
