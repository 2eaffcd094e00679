use crispy_code::dsl::notes;
use crispy_code::dur::Dur;
use crispy_code::lex::{
    DEFAULT_VELOCITY,
    get_pitch_class,
    get_velocity,
    is_diatonic,
    is_scale,
    lex,
    parse_note,
    parse_note_expr,
    parse_note_repeat,
    parse_note_repeat_grouped,
    parse_note_tie,
    parse_rest_repeat,
    parse_rest_tie,
    Token,
};
use crispy_code::parse::ParseError;
use crispy_code::pattern::Note;

#[test]
fn lex_test_parse_note_expr() {
    let note = parse_note_expr("C");
    assert_eq!(
        note,
        Some(Note {
            note_num: 60,
            velocity: DEFAULT_VELOCITY,
            dur: Dur::new(1, 2),
        })
    );

    let note = parse_note_expr("C'");
    assert_eq!(
        note,
        Some(Note {
            note_num: 61,
            velocity: DEFAULT_VELOCITY,
            dur: Dur::new(1, 2),
        })
    );

    let note = parse_note_expr("E1");
    assert_eq!(
        note,
        Some(Note {
            note_num: 40,
            velocity: DEFAULT_VELOCITY,
            dur: Dur::new(1, 2),
        })
    );

    let note = parse_note_expr("D'2");
    assert_eq!(
        note,
        Some(Note {
            note_num: 51,
            velocity: DEFAULT_VELOCITY,
            dur: Dur::new(1, 2),
        })
    );
}

#[test]
fn test_parse_note_tie() {
    let note = parse_note_tie("C@3");
    assert_eq!(
        note,
        Some((
            Note {
                note_num: 60,
                velocity: DEFAULT_VELOCITY,
                dur: Dur::new(1, 2),
            },
            3
        ))
    );

    let note = parse_note_tie("C'@3");
    assert_eq!(
        note,
        Some((
            Note {
                note_num: 61,
                velocity: DEFAULT_VELOCITY,
                dur: Dur::new(1, 2),
            },
            3
        ))
    );

    let note = parse_note_tie("E1@3");
    assert_eq!(
        note,
        Some((
            Note {
                note_num: 40,
                velocity: DEFAULT_VELOCITY,
                dur: Dur::new(1, 2),
            },
            3
        ))
    );

    let note = parse_note_tie("D'2@3");
    assert_eq!(
        note,
        Some((
            Note {
                note_num: 51,
                velocity: DEFAULT_VELOCITY,
                dur: Dur::new(1, 2),
            },
            3
        ))
    );
}

#[test]
fn test_parse_rest_tie() {
    let tok = parse_rest_tie(".@3");
    assert_eq!(tok, Some(3));
}

#[test]
fn test_is_diatonic() {
    for pitch_class in vec!["C", "D", "E", "F", "G", "A", "B"] {
        assert!(
            is_diatonic(get_pitch_class(pitch_class)),
            "is_diatonic does the obvious thing"
        );
    }
}

#[test]
fn test_is_scale() {
    for pitch_class in vec!["C", "D", "E", "F", "G", "A", "B"] {
        assert!(
            !is_scale(get_pitch_class(pitch_class)),
            "diatonic notes are not scale sentinel values"
        );
    }
    assert!(
        is_scale(get_pitch_class("S")),
        r#""S" with no octave is a scale"#
    );
    assert!(
        is_scale(get_pitch_class("S") + 12),
        r#""S" plus an octave is still a scale"#
    );
    assert!(
        is_scale(get_pitch_class("S") + (12 * -2)),
        r#""S" plus the bottom octave is still a scale"#
    );
    assert!(
        is_scale(get_pitch_class("S") + (12 * 7)),
        r#""S" plus the top octave is still a scale"#
    );
    assert!(
        !is_scale(get_pitch_class("S") + 11),
        r#""S" plus a number that is not an octave is not a scale"#
    );
}

fn velocity_cases() -> Vec<(char, u8)> {
    vec![
        ('a', 4),
        ('b', 7),
        ('c', 11),
        ('d', 15),
        ('e', 19),
        ('f', 22),
        ('g', 26),
        ('h', 30),
        ('i', 33),
        ('j', 37),
        ('k', 41),
        ('l', 44),
        ('m', 48),
        ('n', 52),
        ('o', 56),
        ('p', 59),
        ('q', 63),
        ('r', 67),
        ('s', 70),
        ('t', 74),
        ('u', 78),
        ('v', 81),
        ('w', 85),
        ('x', 89),
        ('y', 93),
        ('z', 96),
    ]
}

#[test]
fn lex_test_get_velocity() {
    for case in velocity_cases() {
        assert_eq!(case.1, get_velocity(case.0));
    }
}

#[test]
fn mini_notation_test_get_velocity() {
    for case in velocity_cases() {
        assert_eq!(case.1, get_velocity(case.0));
    }
    assert_eq!(get_velocity('0'), 0);
}

fn note(note_num: u8, velocity: u8) -> Note {
    Note { note_num: note_num, velocity: velocity, dur: Dur { num: 1, den: 2 } }
}

#[test]
fn each_kind_of_token_is_read() {
    assert_eq!(
        lex("[ ] < > . _"),
        Ok(vec![
            Token::GroupStart,
            Token::GroupEnd,
            Token::AlternationStart,
            Token::AlternationEnd,
            Token::Rest,
            Token::Tie,
        ])
    );
    assert_eq!(
        lex("C'4x@3 D:2 E;4 .:5 .@6 Gp"),
        Ok(vec![
            Token::NoteTie((note(73, 89), 3)),
            Token::NoteRepeat((note(62, 80), 2)),
            Token::NoteRepeatGrouped((note(64, 80), 4)),
            Token::RestRepeat(5),
            Token::RestTie(6),
            Token::NoteExpr(note(67, 59)),
        ])
    );
    assert_eq!(lex(""), Ok(vec![]));
    assert_eq!(lex(" \t\r\n\x0c"), Ok(vec![]));
}

#[test]
fn tokens_need_no_space_between_them() {
    assert_eq!(
        lex("[Cx.D]"),
        Ok(vec![
            Token::GroupStart,
            Token::NoteExpr(note(60, 89)),
            Token::Rest,
            Token::NoteExpr(note(62, 80)),
            Token::GroupEnd,
        ])
    );
    // a note ends where its parts end: the next letter starts another
    assert_eq!(
        lex("CD"),
        Ok(vec![Token::NoteExpr(note(60, 80)), Token::NoteExpr(note(62, 80))])
    );
    // velocity then octave is two notes, octave then velocity is one
    assert_eq!(
        lex("x3"),
        Ok(vec![Token::NoteExpr(note(60, 89)), Token::NoteExpr(note(60, 80))])
    );
    assert_eq!(lex("3x"), Ok(vec![Token::NoteExpr(note(60, 89))]));
    // a dot with a mark but no number is a rest; what follows must be a token
    assert_eq!(lex(".:"), Err(ParseError::LexFailure));
    assert_eq!(lex(". :3"), Ok(vec![Token::Rest, Token::NoteRepeat((note(60, 80), 3))]));
}

#[test]
fn what_is_no_token_fails() {
    for text in ["?", "C8", "C@", "C:", "C;", "H", "c#", "C-", "C-3", "[C}", "é", "C@99999999999"] {
        assert_eq!(lex(text), Err(ParseError::LexFailure), "{:?}", text);
        assert_eq!(notes(text), Err(ParseError::LexFailure), "{:?}", text);
    }
    assert_eq!(lex("C@4294967295"), Ok(vec![Token::NoteTie((note(60, 80), 4294967295))]));
    assert_eq!(lex("C@4294967296"), Err(ParseError::LexFailure));
}

#[test]
fn pitches_follow_letter_sharp_and_octave() {
    let cases: Vec<(&str, u8)> = vec![
        ("C", 60),
        ("D", 62),
        ("E", 64),
        ("F", 65),
        ("G", 67),
        ("A", 69),
        ("B", 71),
        ("C-2", 0),
        ("C-1", 12),
        ("C0", 24),
        ("C7", 108),
        ("B'7", 120),
        ("S", 190),
        ("S'", 190),
        ("S-2", 130),
        ("S7", 238),
        ("", 60),
        ("'", 61),
        ("4", 72),
    ];
    for (text, pitch) in cases {
        assert_eq!(parse_note(text), Some((note(pitch, 80), 1, 1, 1)), "{:?}", text);
    }
    assert_eq!(parse_note("C0"), Some((note(24, 80), 1, 1, 1)));
    assert_eq!(parse_note("C00"), Some((note(24, 0), 1, 1, 1)));
    assert_eq!(parse_note("0"), Some((note(24, 80), 1, 1, 1)));
    assert_eq!(parse_note("z"), Some((note(60, 96), 1, 1, 1)));
}

#[test]
fn a_note_text_holds_one_note_and_its_counts() {
    assert_eq!(parse_note("D'2g@3:4;5"), Some((note(51, 26), 3, 4, 5)));
    assert_eq!(parse_note("D:4"), Some((note(62, 80), 1, 4, 1)));
    assert_eq!(parse_note_repeat("D:4"), Some((note(62, 80), 4)));
    assert_eq!(parse_note_repeat_grouped("D;7"), Some((note(62, 80), 7)));
    assert_eq!(parse_note_tie("D"), Some((note(62, 80), 1)));
    for text in ["(((", "C D", "C8", "C:4@3", "C@", "C@x", " C", "C@4294967296"] {
        assert_eq!(parse_note(text), None, "{:?}", text);
        assert_eq!(parse_note_expr(text), None, "{:?}", text);
    }
}

#[test]
fn rest_counts_are_the_number_behind_the_mark() {
    assert_eq!(parse_rest_repeat(".:12"), Some(12));
    assert_eq!(parse_rest_tie(".@0"), Some(0));
    assert_eq!(parse_rest_repeat(".:"), None);
    assert_eq!(parse_rest_repeat(".:x"), None);
    assert_eq!(parse_rest_repeat(".:1x"), None);
    assert_eq!(parse_rest_tie(""), None);
    assert_eq!(parse_rest_tie(".@4294967296"), None);
}

#[test]
fn scale_pitches_are_told_from_the_others() {
    assert!(!is_diatonic(get_pitch_class("S")));
    assert_eq!(get_pitch_class(""), 0);
    assert_eq!(get_pitch_class("Bx"), 11);
    assert!(is_scale(106));
    assert!(is_scale(238));
    assert!(!is_scale(94));
    assert!(!is_scale(107));
    assert!(!is_scale(-14));
    assert!(!is_scale(i32::MIN));
}
