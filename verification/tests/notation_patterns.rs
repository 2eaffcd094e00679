use crispy_code::dsl::notes;
use crispy_code::dur::{bar, Dur};
use crispy_code::parse::ParseError;
use crispy_code::pattern::{Event, EventType, Note, Pattern};

#[test]
fn pat_test_test_pattern_empty() {
    assert_eq!(
        notes("[]"),
        Ok(Pattern {
            channel: 1,
            length_bars: bar(),
            events: vec![],
        }),
    );
}

#[test]
fn pat_test_test_pattern_missing_group_delimiter() {
    assert_eq!(notes("["), Err(ParseError::MissingGroupDelimiter));
    assert_eq!(notes("]"), Err(ParseError::MissingGroupDelimiter));
    assert_eq!(notes("] C3"), Err(ParseError::MissingGroupDelimiter));
    assert_eq!(notes("C3 ]"), Err(ParseError::MissingGroupDelimiter));
    assert_eq!(notes("[ C3"), Err(ParseError::MissingGroupDelimiter));
    assert_eq!(notes("C3 ["), Err(ParseError::MissingGroupDelimiter));
}

#[test]
fn pat_test_test_pattern_single_note() {
    assert_eq!(
        notes("[Cx]"),
        Ok(Pattern {
            channel: 1,
            length_bars: bar(),
            events: vec![Event {
                action: EventType::NoteEvent(Note {
                    note_num: 60,
                    velocity: 89,
                    dur: Dur::new(1, 2),
                }),
                dur: Dur::new(1, 1),
            },],
        }),
    );
}

#[test]
fn pat_test_test_pattern_two_notes() {
    assert_eq!(
        notes("[Cx D'g]"),
        Ok(Pattern {
            channel: 1,
            length_bars: bar(),
            events: vec![
                Event {
                    action: EventType::NoteEvent(Note {
                        note_num: 60,
                        velocity: 89,
                        dur: Dur::new(1, 2),
                    }),
                    dur: Dur::new(1, 2),
                },
                Event {
                    action: EventType::NoteEvent(Note {
                        note_num: 63,
                        velocity: 26,
                        dur: Dur::new(1, 2),
                    }),
                    dur: Dur::new(1, 2),
                },
            ],
        }),
    );
}

#[test]
fn pat_test_test_pattern_four_notes() {
    assert_eq!(
        notes("C3k E3k G3k A3k"),
        Ok(Pattern {
            channel: 1,
            length_bars: bar(),
            events: vec![
                Event {
                    action: EventType::NoteEvent(Note {
                        note_num: 60,
                        velocity: 41,
                        dur: Dur::new(1, 2),
                    }),
                    dur: Dur::new(1, 4),
                },
                Event {
                    action: EventType::NoteEvent(Note {
                        note_num: 64,
                        velocity: 41,
                        dur: Dur::new(1, 2),
                    }),
                    dur: Dur::new(1, 4),
                },
                Event {
                    action: EventType::NoteEvent(Note {
                        note_num: 67,
                        velocity: 41,
                        dur: Dur::new(1, 2),
                    }),
                    dur: Dur::new(1, 4),
                },
                Event {
                    action: EventType::NoteEvent(Note {
                        note_num: 69,
                        velocity: 41,
                        dur: Dur::new(1, 2),
                    }),
                    dur: Dur::new(1, 4),
                },
            ],
        })
    );
}

#[test]
fn pat_test_test_pattern_single_note_plus_rest() {
    assert_eq!(
        notes("[Cx .]"),
        Ok(Pattern {
            channel: 1,
            length_bars: bar(),
            events: vec![
                Event {
                    action: EventType::NoteEvent(Note {
                        note_num: 60,
                        velocity: 89,
                        dur: Dur::new(1, 2),
                    }),
                    dur: Dur::new(1, 2),
                },
                Event {
                    action: EventType::Rest,
                    dur: Dur::new(1, 2),
                },
            ],
        }),
    );

    assert_eq!(
        notes("Cx ."),
        Ok(Pattern {
            channel: 1,
            length_bars: bar(),
            events: vec![
                Event {
                    action: EventType::NoteEvent(Note {
                        note_num: 60,
                        velocity: 89,
                        dur: Dur::new(1, 2),
                    }),
                    dur: Dur::new(1, 2),
                },
                Event {
                    action: EventType::Rest,
                    dur: Dur::new(1, 2),
                },
            ],
        }),
    );
}

#[test]
fn pat_test_test_pattern_with_ties() {
    assert_eq!(
        notes("[Cx Gp _ _]"),
        Ok(Pattern {
            channel: 1,
            length_bars: bar(),
            events: vec![
                Event {
                    action: EventType::NoteEvent(Note {
                        note_num: 60,
                        velocity: 89,
                        dur: Dur::new(1, 2),
                    }),
                    dur: Dur::new(1, 4),
                },
                Event {
                    action: EventType::NoteEvent(Note {
                        note_num: 67,
                        velocity: 59,
                        dur: Dur::new(1, 2),
                    }),
                    dur: Dur::new(3, 4),
                },
            ],
        }),
    );

    assert_eq!(
        notes("[Cx Gp@3]"),
        Ok(Pattern {
            channel: 1,
            length_bars: bar(),
            events: vec![
                Event {
                    action: EventType::NoteEvent(Note {
                        note_num: 60,
                        velocity: 89,
                        dur: Dur::new(1, 2),
                    }),
                    dur: Dur::new(1, 4),
                },
                Event {
                    action: EventType::NoteEvent(Note {
                        note_num: 67,
                        velocity: 59,
                        dur: Dur::new(1, 2),
                    }),
                    dur: Dur::new(3, 4),
                },
            ],
        }),
    );

    assert_eq!(
        notes("[Cx .@2 Eo]"),
        Ok(Pattern {
            channel: 1,
            length_bars: bar(),
            events: vec![
                Event {
                    action: EventType::NoteEvent(Note {
                        note_num: 60,
                        velocity: 89,
                        dur: Dur::new(1, 2),
                    }),
                    dur: Dur::new(1, 4),
                },
                Event {
                    action: EventType::Rest,
                    dur: Dur::new(1, 4),
                },
                Event {
                    action: EventType::Rest,
                    dur: Dur::new(1, 4),
                },
                Event {
                    action: EventType::NoteEvent(Note {
                        note_num: 64,
                        velocity: 56,
                        dur: Dur::new(1, 2),
                    }),
                    dur: Dur::new(1, 4),
                },
            ],
        }),
    );
}

#[test]
fn pat_test_test_pattern_with_subpattern_first() {
    let actual = notes("[[D'g G4u] Cx]");
    let expect = Pattern {
        channel: 1,
        length_bars: bar(),
        events: vec![
            Event {
                action: EventType::NoteEvent(Note {
                    note_num: 63,
                    velocity: 26,
                    dur: Dur::new(1, 2),
                }),
                dur: Dur::new(1, 4),
            },
            Event {
                action: EventType::NoteEvent(Note {
                    note_num: 79,
                    velocity: 78,
                    dur: Dur::new(1, 2),
                }),
                dur: Dur::new(1, 4),
            },
            Event {
                action: EventType::NoteEvent(Note {
                    note_num: 60,
                    velocity: 89,
                    dur: Dur::new(1, 2),
                }),
                dur: Dur::new(1, 2),
            },
        ],
    };
    assert_eq!(actual, Ok(expect));
}

#[test]
fn pat_test_test_pattern_with_subpattern_last() {
    let actual = notes("[Cx [D'g G4u]]");
    let expect = Pattern {
        channel: 1,
        length_bars: bar(),
        events: vec![
            Event {
                action: EventType::NoteEvent(Note {
                    note_num: 60,
                    velocity: 89,
                    dur: Dur::new(1, 2),
                }),
                dur: Dur::new(1, 2),
            },
            Event {
                action: EventType::NoteEvent(Note {
                    note_num: 63,
                    velocity: 26,
                    dur: Dur::new(1, 2),
                }),
                dur: Dur::new(1, 4),
            },
            Event {
                action: EventType::NoteEvent(Note {
                    note_num: 79,
                    velocity: 78,
                    dur: Dur::new(1, 2),
                }),
                dur: Dur::new(1, 4),
            },
        ],
    };
    assert_eq!(actual, Ok(expect));
}

#[test]
fn pat_test_test_pattern_with_nongrouping_repeat() {
    let actual = notes("[Cx D'g:2 G4u]");
    let expect = Pattern {
        channel: 1,
        length_bars: bar(),
        events: vec![
            Event {
                action: EventType::NoteEvent(Note {
                    note_num: 60,
                    velocity: 89,
                    dur: Dur::new(1, 2),
                }),
                dur: Dur::new(1, 4),
            },
            Event {
                action: EventType::NoteEvent(Note {
                    note_num: 63,
                    velocity: 26,
                    dur: Dur::new(1, 2),
                }),
                dur: Dur::new(1, 4),
            },
            Event {
                action: EventType::NoteEvent(Note {
                    note_num: 63,
                    velocity: 26,
                    dur: Dur::new(1, 2),
                }),
                dur: Dur::new(1, 4),
            },
            Event {
                action: EventType::NoteEvent(Note {
                    note_num: 79,
                    velocity: 78,
                    dur: Dur::new(1, 2),
                }),
                dur: Dur::new(1, 4),
            },
        ],
    };
    assert_eq!(actual, Ok(expect));
}

#[test]
fn pat_test_test_pattern_with_grouping_repeat() {
    let actual = notes("[Cx D'g;2 G4u]");
    let expect = Pattern {
        channel: 1,
        length_bars: bar(),
        events: vec![
            Event {
                action: EventType::NoteEvent(Note {
                    note_num: 60,
                    velocity: 89,
                    dur: Dur::new(1, 2),
                }),
                dur: Dur::new(1, 3),
            },
            Event {
                action: EventType::NoteEvent(Note {
                    note_num: 63,
                    velocity: 26,
                    dur: Dur::new(1, 2),
                }),
                dur: Dur::new(1, 6),
            },
            Event {
                action: EventType::NoteEvent(Note {
                    note_num: 63,
                    velocity: 26,
                    dur: Dur::new(1, 2),
                }),
                dur: Dur::new(1, 6),
            },
            Event {
                action: EventType::NoteEvent(Note {
                    note_num: 79,
                    velocity: 78,
                    dur: Dur::new(1, 2),
                }),
                dur: Dur::new(1, 3),
            },
        ],
    };
    assert_eq!(actual, Ok(expect));
}

#[test]
fn pat_test_test_pattern_with_alternation() {
    let actual = notes("[Cx <D'g G4u>]");
    let expect = Pattern {
        channel: 1,
        length_bars: bar(),
        events: vec![
            Event {
                action: EventType::NoteEvent(Note {
                    note_num: 60,
                    velocity: 89,
                    dur: Dur::new(1, 2),
                }),
                dur: Dur::new(1, 4),
            },
            Event {
                action: EventType::NoteEvent(Note {
                    note_num: 63,
                    velocity: 26,
                    dur: Dur::new(1, 2),
                }),
                dur: Dur::new(1, 4),
            },
            Event {
                action: EventType::NoteEvent(Note {
                    note_num: 60,
                    velocity: 89,
                    dur: Dur::new(1, 2),
                }),
                dur: Dur::new(1, 4),
            },
            Event {
                action: EventType::NoteEvent(Note {
                    note_num: 79,
                    velocity: 78,
                    dur: Dur::new(1, 2),
                }),
                dur: Dur::new(1, 4),
            },
        ],
    };
    assert_eq!(actual, Ok(expect));
}

#[test]
fn pat_test_test_pattern_with_nested_alternation() {
    let actual = notes("Cx <D'g <G4u E2l>>");
    let expect = Pattern {
        channel: 1,
        length_bars: bar(),
        events: vec![
            Event {
                action: EventType::NoteEvent(Note {
                    note_num: 60,
                    velocity: 89,
                    dur: Dur::new(1, 2),
                }),
                dur: Dur::new(1, 8),
            },
            Event {
                action: EventType::NoteEvent(Note {
                    note_num: 63,
                    velocity: 26,
                    dur: Dur::new(1, 2),
                }),
                dur: Dur::new(1, 8),
            },
            Event {
                action: EventType::NoteEvent(Note {
                    note_num: 60,
                    velocity: 89,
                    dur: Dur::new(1, 2),
                }),
                dur: Dur::new(1, 8),
            },
            Event {
                action: EventType::NoteEvent(Note {
                    note_num: 79,
                    velocity: 78,
                    dur: Dur::new(1, 2),
                }),
                dur: Dur::new(1, 8),
            },
            Event {
                action: EventType::NoteEvent(Note {
                    note_num: 60,
                    velocity: 89,
                    dur: Dur::new(1, 2),
                }),
                dur: Dur::new(1, 8),
            },
            Event {
                action: EventType::NoteEvent(Note {
                    note_num: 63,
                    velocity: 26,
                    dur: Dur::new(1, 2),
                }),
                dur: Dur::new(1, 8),
            },
            Event {
                action: EventType::NoteEvent(Note {
                    note_num: 60,
                    velocity: 89,
                    dur: Dur::new(1, 2),
                }),
                dur: Dur::new(1, 8),
            },
            Event {
                action: EventType::NoteEvent(Note {
                    note_num: 52,
                    velocity: 44,
                    dur: Dur::new(1, 2),
                }),
                dur: Dur::new(1, 8),
            },
        ],
    };
    assert_eq!(actual, Ok(expect));
}

#[test]
fn pat_test_test_pattern_missing_alternation_delimiter() {
    let actual = notes("Cx <D'g G4u");
    assert_eq!(actual, Err(ParseError::MissingAlternationDelimiter));
    let actual = notes("Cx D'g G4u>");
    assert_eq!(actual, Err(ParseError::MissingAlternationDelimiter));
}

#[test]
fn pat_test_test_pattern_missing_alternation_anchor() {
    let actual = notes("<D'g G4u>");
    assert_eq!(actual, Err(ParseError::MissingAlternationAnchor));
}
