use crispy_code::dsl::{get_root_elem, notes};
use crispy_code::dur::{bar, Dur};
use crispy_code::lex::{DEFAULT_VELOCITY, parse_note_expr};
use crispy_code::parse::Element;
use crispy_code::pattern::{Event, EventType, Note, Pattern};

#[test]
fn mini_notation_test_pattern_empty() {
    assert_eq!(
        notes("[]"),
        Ok(Pattern {
            channel: 1,
            length_bars: bar(),
            events: vec![],
        }),
    );
}

#[test]
fn mini_notation_test_pattern_single_note() {
    assert_eq!(
        notes("[Cx]"),
        Ok(Pattern {
            channel: 1,
            length_bars: bar(),
            events: vec![Event {
                action: EventType::NoteEvent(Note {
                    note_num: 60,
                    velocity: 89,
                    dur: Dur::new(1, 2),
                }),
                dur: Dur::new(1, 1),
            },],
        }),
    );
}

#[test]
fn mini_notation_test_pattern_two_notes() {
    assert_eq!(
        notes("[Cx D'g]"),
        Ok(Pattern {
            channel: 1,
            length_bars: bar(),
            events: vec![
                Event {
                    action: EventType::NoteEvent(Note {
                        note_num: 60,
                        velocity: 89,
                        dur: Dur::new(1, 2),
                    }),
                    dur: Dur::new(1, 2),
                },
                Event {
                    action: EventType::NoteEvent(Note {
                        note_num: 63,
                        velocity: 26,
                        dur: Dur::new(1, 2),
                    }),
                    dur: Dur::new(1, 2),
                },
            ],
        }),
    );
}

#[test]
fn test_pattern_with_subpattern() {
    let actual = notes("[Cx [D'g G4u]]");
    let expect = Pattern {
        channel: 1,
        length_bars: bar(),
        events: vec![
            Event {
                action: EventType::NoteEvent(Note {
                    note_num: 60,
                    velocity: 89,
                    dur: Dur::new(1, 2),
                }),
                dur: Dur::new(1, 2),
            },
            Event {
                action: EventType::NoteEvent(Note {
                    note_num: 63,
                    velocity: 26,
                    dur: Dur::new(1, 2),
                }),
                dur: Dur::new(1, 4),
            },
            Event {
                action: EventType::NoteEvent(Note {
                    note_num: 79,
                    velocity: 78,
                    dur: Dur::new(1, 2),
                }),
                dur: Dur::new(1, 4),
            },
        ],
    };
    assert_eq!(actual, Ok(expect));
}

#[test]
fn mini_notation_test_parse_note_expr() {
    let note = parse_note_expr("C");
    assert_eq!(
        note,
        Some(Note {
            note_num: 60,
            velocity: DEFAULT_VELOCITY,
            dur: Dur::new(1, 2),
        })
    );

    let note = parse_note_expr("C'");
    assert_eq!(
        note,
        Some(Note {
            note_num: 61,
            velocity: DEFAULT_VELOCITY,
            dur: Dur::new(1, 2),
        })
    );

    let note = parse_note_expr("E1");
    assert_eq!(
        note,
        Some(Note {
            note_num: 40,
            velocity: DEFAULT_VELOCITY,
            dur: Dur::new(1, 2),
        })
    );

    let note = parse_note_expr("D'2");
    assert_eq!(
        note,
        Some(Note {
            note_num: 51,
            velocity: DEFAULT_VELOCITY,
            dur: Dur::new(1, 2),
        })
    );
}

#[test]
fn mini_notation_test_get_root_elem() {
    let elem = get_root_elem("[C]").unwrap();
    assert_eq!(
        elem,
        Element::Group(vec![Element::Note(Note {
            note_num: 60,
            velocity: DEFAULT_VELOCITY,
            dur: Dur::new(1, 2),
        })])
    );
}

#[test]
fn mini_notation_test_get_root_elem_subgroup() {
    let elem = get_root_elem("C [D E]").unwrap();
    assert_eq!(
        elem,
        Element::Group(vec![
            Element::Note(Note {
                note_num: 60,
                velocity: DEFAULT_VELOCITY,
                dur: Dur::new(1, 2),
            }),
            Element::Group(vec![
                Element::Note(Note {
                    note_num: 62,
                    velocity: DEFAULT_VELOCITY,
                    dur: Dur::new(1, 2),
                }),
                Element::Note(Note {
                    note_num: 64,
                    velocity: DEFAULT_VELOCITY,
                    dur: Dur::new(1, 2),
                }),
            ]),
        ])
    );
}
