use crispy_code::dsl::notes;
use crispy_code::dur::{bar, Dur, half};
use crispy_code::pattern::{
    copy_events,
    copy_notes,
    CtrlEvent,
    Event,
    EventType,
    NamedPattern,
    Note,
    Pattern,
};
use crispy_code::precise::compute_extra_samples;

#[test]
fn pattern_test_note_clone() {
    let note = Note {
        note_num: 60,
        velocity: 50,
        dur: Dur { num: 1, den: 4 },
    };
    let clone = note.clone();
    assert_eq!(note, clone);
}

#[test]
fn pattern_test_event_clone() {
    let event = Event {
        action: EventType::NoteEvent(Note {
            note_num: 60,
            velocity: 50,
            dur: Dur { num: 1, den: 4 },
        }),
        dur: Dur { num: 1, den: 2 },
    };
    let clone = event.clone();
    assert_eq!(event, clone);
}

#[test]
fn test_named_pattern_reverse() {
    assert_eq!(
        notes("Cx Dg").unwrap().named("foo").reverse(),
        notes("Dg Cx").unwrap().named("foo")
    );
}

#[test]
fn test_named_pattern_len() {
    assert_eq!(
        notes("Cx Dg").unwrap().named("foo").len(bar() * 2),
        NamedPattern {
            channel: 1,
            events: vec![
                Event {
                    action: EventType::NoteEvent(Note {
                        note_num: 60,
                        velocity: 89,
                        dur: half()
                    }),
                    dur: bar(),
                },
                Event {
                    action: EventType::NoteEvent(Note {
                        note_num: 62,
                        velocity: 26,
                        dur: half()
                    }),
                    dur: bar(),
                },
            ],
            length_bars: bar() * 2,
            name: String::from("foo"),
        }
    );
}

#[test]
fn test_named_pattern_note() {
    assert_eq!(
        notes("Cx Dg").unwrap().named("foo").note("Ep"),
        notes("Ex Eg").unwrap().named("foo"),
    );
}

#[test]
fn test_named_pattern_trans() {
    assert_eq!(
        notes("Cx Dg").unwrap().named("foo").trans(7),
        notes("Gx Ag").unwrap().named("foo"),
    );
}

#[test]
fn pattern_test_fractional_duration_clone() {
    let dur = Dur { num: 1, den: 4 };
    let clone = dur.clone();
    assert_eq!(dur, clone);
}

#[test]
fn test_note_clone() {
    let note = Note {
        note_num: 60,
        velocity: 50,
        dur: Dur { num: 1, den: 4 },
    };
    let clone = note.clone();
    assert_eq!(note, clone);
}

#[test]
fn test_event_clone() {
    let event = Event {
        action: EventType::NoteEvent(Note {
            note_num: 60,
            velocity: 50,
            dur: Dur { num: 1, den: 4 },
        }),
        dur: Dur { num: 1, den: 2 },
    };
    let clone = event.clone();
    assert_eq!(event, clone);
}

#[test]
fn pattern_test_compute_extra_samples() -> Result<(), String> {
    let extra_samples = compute_extra_samples(37, 5);
    assert_eq!(extra_samples, vec![8, 8, 7, 7, 7]);
    Ok(())
}

fn tune() -> NamedPattern {
    NamedPattern {
        channel: 3,
        events: vec![
            Event {
                action: EventType::NoteEvent(Note { note_num: 60, velocity: 89, dur: half() }),
                dur: Dur { num: 1, den: 4 },
            },
            Event { action: EventType::Rest, dur: Dur { num: 1, den: 4 } },
            Event {
                action: EventType::MultiNoteEvent(vec![
                    Note { note_num: 64, velocity: 50, dur: half() },
                    Note { note_num: 67, velocity: 50, dur: half() },
                ]),
                dur: Dur { num: 1, den: 4 },
            },
            Event {
                action: EventType::Ctrl(CtrlEvent { cc: 7, value: 100 }),
                dur: Dur { num: 1, den: 4 },
            },
        ],
        length_bars: bar(),
        name: String::from("tune"),
    }
}

#[test]
fn naming_keeps_the_pattern() {
    let renamed = tune().named("other");
    assert_eq!(renamed.name, "other");
    assert_eq!(renamed.events, tune().events);
    assert_eq!(renamed.channel, 3);
    let pattern = Pattern { channel: 2, events: tune().events, length_bars: half() };
    let named = pattern.clone().named("p");
    assert_eq!(
        named,
        NamedPattern { channel: 2, events: pattern.events, length_bars: half(), name: String::from("p") }
    );
}

#[test]
fn reversing_twice_gives_the_pattern_back() {
    let reversed = tune().reverse();
    assert_eq!(reversed.events[0], tune().events[3]);
    assert_eq!(reversed.events[3], tune().events[0]);
    assert_eq!(reversed.name, "tune");
    assert_eq!(reversed.reverse(), tune());
}

#[test]
fn moving_and_setting_pitch_touch_single_notes_only() {
    let moved = tune().trans(-12);
    assert_eq!(
        moved.events[0].action,
        EventType::NoteEvent(Note { note_num: 48, velocity: 89, dur: half() })
    );
    assert_eq!(moved.events[1..], tune().events[1..]);
    assert_eq!(tune().trans(0), tune());
    assert_eq!(tune().trans(195).events[0].action, EventType::NoteEvent(Note { note_num: 255, velocity: 89, dur: half() }));

    let set = tune().note("G'4z@3");
    assert_eq!(
        set.events[0].action,
        EventType::NoteEvent(Note { note_num: 80, velocity: 89, dur: half() })
    );
    assert_eq!(set.events[1..], tune().events[1..]);
}

#[test]
fn a_new_length_stretches_every_event() {
    let stretched = tune().len(Dur { num: 3, den: 2 });
    assert_eq!(stretched.length_bars, Dur { num: 3, den: 2 });
    for (e, was) in stretched.events.iter().zip(tune().events.iter()) {
        assert_eq!(e.dur, Dur { num: 3, den: 8 });
        assert_eq!(e.action, was.action);
    }
    assert_eq!(tune().len(bar()), tune());
}

#[test]
fn copies_hold_what_was_copied() {
    assert_eq!(copy_events(&tune().events), tune().events);
    assert_eq!(tune().events[2].duplicate(), tune().events[2]);
    assert_eq!(tune().events[2].action.duplicate(), tune().events[2].action);
    let notes = vec![Note { note_num: 1, velocity: 2, dur: half() }];
    assert_eq!(copy_notes(&notes), notes);
}
